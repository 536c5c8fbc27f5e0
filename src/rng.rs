//! Seeded random streams: seed derivation, sub-stream fan-out, and the
//! primitive draws that the generators build on.

use rand::distributions::Distribution;
use rand::Rng;
use rand::SeedableRng;
use rand_xoshiro::Xoshiro256StarStar;
use std::hash::Hash;
use std::hash::Hasher;
use vstd::prelude::*;

verus! {

#[verifier::external_type_specification]
#[verifier::external_body]
pub struct ExXoshiro256StarStar(Xoshiro256StarStar);

/// The generator behind every handle: a jumpable xoshiro256** instance.
pub type MainRng = Xoshiro256StarStar;

/// What the standard library's default hasher yields for the tuple
/// `(part, seed, thread, purpose)`.
pub uninterp spec fn seed_part(part: i32, seed: u64, thread: u64, purpose: Seq<u8>) -> u64;

/// What the standard library's default hasher yields for a single `u64`.
pub uninterp spec fn mix_hash(x: u64) -> u64;

/// What the standard library's default hasher yields for a pair of `u64`s.
pub uninterp spec fn pair_hash(a: u64, b: u64) -> u64;

/// Relies on `DefaultHasher::new`, whose instances all start alike, fed with
/// the four values in order: the result depends on them alone.
#[verifier::external_body]
fn hash_seed_part(part: i32, seed: u64, thread: u64, purpose: &[u8]) -> (r: u64)
    ensures
        r == seed_part(part, seed, thread, purpose@),
{
    let mut h = std::collections::hash_map::DefaultHasher::new();
    part.hash(&mut h);
    seed.hash(&mut h);
    thread.hash(&mut h);
    purpose.hash(&mut h);
    h.finish()
}

/// Relies on `DefaultHasher::new` fed with one `u64`: the result depends on it alone.
#[verifier::external_body]
pub(crate) fn hash_one(x: u64) -> (r: u64)
    ensures
        r == mix_hash(x),
{
    let mut h = std::collections::hash_map::DefaultHasher::new();
    x.hash(&mut h);
    h.finish()
}

/// Relies on `DefaultHasher::new` fed with the tuple `(a, b)`: the result
/// depends on the pair alone.
#[verifier::external_body]
pub(crate) fn hash_pair(a: u64, b: u64) -> (r: u64)
    ensures
        r == pair_hash(a, b),
{
    let mut h = std::collections::hash_map::DefaultHasher::new();
    (a, b).hash(&mut h);
    h.finish()
}

/// The four state words of a generator.
pub uninterp spec fn rng_words(r: MainRng) -> Seq<u64>;

/// The state words after a long jump of 2^128 steps.
pub uninterp spec fn jump_words(s: Seq<u64>) -> Seq<u64>;

/// The state words that seeding from one `u64` gives (SplitMix64 expansion).
pub uninterp spec fn splitmix_words(x: u64) -> Seq<u64>;

/// The values that filling `n` slots of `u64` draws from state `s` gives.
pub uninterp spec fn u64_fill_values(s: Seq<u64>, n: nat) -> Seq<u64>;

/// The state after filling `n` slots of `u64` draws from state `s`.
pub uninterp spec fn u64_fill_state(s: Seq<u64>, n: nat) -> Seq<u64>;

/// The value of a uniform draw in `[lo, hi)` over `u64` from state `s`.
pub uninterp spec fn uniform_u64_value(s: Seq<u64>, lo: u64, hi: u64) -> u64;

/// The state after a uniform draw in `[lo, hi)` over `u64` from state `s`.
pub uninterp spec fn uniform_u64_state(s: Seq<u64>, lo: u64, hi: u64) -> Seq<u64>;

/// The value of a uniform draw in `[0, n)` over `u32` from state `s`.
pub uninterp spec fn uniform_u32_value(s: Seq<u64>, n: u32) -> u32;

/// The state after a uniform draw in `[0, n)` over `u32` from state `s`.
pub uninterp spec fn uniform_u32_state(s: Seq<u64>, n: u32) -> Seq<u64>;

/// The value of a `u32` draw from state `s`.
pub uninterp spec fn u32_value(s: Seq<u64>) -> u32;

/// The state after a `u32` draw from state `s`.
pub uninterp spec fn u32_state(s: Seq<u64>) -> Seq<u64>;

/// The value of a `u64` draw from state `s`.
pub uninterp spec fn u64_value(s: Seq<u64>) -> u64;

/// The state after a `u64` draw from state `s`.
pub uninterp spec fn u64_state(s: Seq<u64>) -> Seq<u64>;

/// The values that filling `n` slots of `u32` draws from state `s` gives.
pub uninterp spec fn u32_fill_values(s: Seq<u64>, n: nat) -> Seq<u32>;

/// Word `i` of `b`, read from bytes `8 * i` to `8 * i + 7`, least significant first.
pub open spec fn le_word(b: Seq<u8>, i: int) -> u64 {
    (b[8 * i] as u64) | ((b[8 * i + 1] as u64) << 8u64) | ((b[8 * i + 2] as u64) << 16u64)
        | ((b[8 * i + 3] as u64) << 24u64) | ((b[8 * i + 4] as u64) << 32u64)
        | ((b[8 * i + 5] as u64) << 40u64) | ((b[8 * i + 6] as u64) << 48u64)
        | ((b[8 * i + 7] as u64) << 56u64)
}

/// The bytes read as consecutive little-endian words.
pub open spec fn le_words(b: Seq<u8>) -> Seq<u64> {
    Seq::new(b.len() / 8, |i: int| le_word(b, i))
}

/// Relies on `SeedableRng::from_seed` for xoshiro256**, which reads the 32
/// bytes as four little-endian state words; an all-zero seed is mapped to
/// another state instead.
#[verifier::external_body]
fn rng_from_seed(seed: &Vec<u8>) -> (r: MainRng)
    requires
        seed@.len() == 32,
    ensures
        (exists|i: int| 0 <= i < 32 && seed@[i] != 0) ==> rng_words(r) == le_words(seed@),
        (forall|i: int| 0 <= i < 32 ==> seed@[i] == 0) ==> rng_words(r) == splitmix_words(0),
{
    let bytes: [u8; 32] = seed.as_slice().try_into().unwrap();
    Xoshiro256StarStar::from_seed(bytes)
}

/// Relies on `SeedableRng::seed_from_u64` for xoshiro256** (SplitMix64 expansion).
#[verifier::external_body]
pub(crate) fn rng_from_u64(seed: u64) -> (r: MainRng)
    ensures
        rng_words(r) == splitmix_words(seed),
{
    Xoshiro256StarStar::seed_from_u64(seed)
}

/// Relies on `Clone` for xoshiro256**, derived on its state words: an equal copy.
#[verifier::external_body]
pub(crate) fn rng_clone(rng: &MainRng) -> (r: MainRng)
    ensures
        r == *rng,
{
    rng.clone()
}

/// Relies on `Xoshiro256StarStar::jump`: advances the state by 2^128 draws.
#[verifier::external_body]
pub(crate) fn rng_jump(rng: &mut MainRng)
    ensures
        rng_words(*final(rng)) == jump_words(rng_words(*old(rng))),
{
    rng.jump()
}

/// Relies on `Rng::gen::<u32>`: any 32-bit value.
#[verifier::external_body]
pub(crate) fn next_u32(rng: &mut MainRng) -> (r: u32)
    ensures
        r == u32_value(rng_words(*old(rng))),
        rng_words(*final(rng)) == u32_state(rng_words(*old(rng))),
{
    rng.gen::<u32>()
}

/// Relies on `Rng::gen::<u64>`: any 64-bit value.
#[verifier::external_body]
pub(crate) fn next_u64(rng: &mut MainRng) -> (r: u64)
    ensures
        r == u64_value(rng_words(*old(rng))),
        rng_words(*final(rng)) == u64_state(rng_words(*old(rng))),
{
    rng.gen::<u64>()
}

/// Relies on `Rng::gen::<bool>`: either value.
#[verifier::external_body]
pub(crate) fn next_bool(rng: &mut MainRng) -> (r: bool) {
    rng.gen::<bool>()
}

/// Relies on `Uniform::new(0, n)` and its `sample`: a value in `[0, n)`;
/// `Uniform::new` panics when the range is empty.
#[verifier::external_body]
pub(crate) fn uniform_below(rng: &mut MainRng, n: u32) -> (r: u32)
    requires
        n > 0,
    ensures
        r < n,
        r == uniform_u32_value(rng_words(*old(rng)), n),
        rng_words(*final(rng)) == uniform_u32_state(rng_words(*old(rng)), n),
{
    rand::distributions::Uniform::new(0, n).sample(rng)
}

/// Relies on `Uniform::new(lo, hi)` over `u8` and its `sample`: a value in
/// `[lo, hi)`; `Uniform::new` panics when the range is empty.
#[verifier::external_body]
pub(crate) fn uniform_u8(rng: &mut MainRng, lo: u8, hi: u8) -> (r: u8)
    requires
        lo < hi,
    ensures
        lo <= r < hi,
{
    rand::distributions::Uniform::new(lo, hi).sample(rng)
}

/// Relies on `RngCore::fill_bytes`: every byte is overwritten, the length is kept.
#[verifier::external_body]
pub(crate) fn fill_random_bytes(rng: &mut MainRng, dst: &mut Vec<u8>)
    ensures
        final(dst)@.len() == old(dst)@.len(),
{
    rand::RngCore::fill_bytes(rng, dst.as_mut_slice())
}

/// Relies on `Uniform::new(lo, hi)` over `usize` and its `sample`: a value in
/// `[lo, hi)`; `Uniform::new` panics when the range is empty.
#[verifier::external_body]
pub(crate) fn uniform_usize(rng: &mut MainRng, lo: usize, hi: usize) -> (r: usize)
    requires
        lo < hi,
    ensures
        lo <= r < hi,
{
    rand::distributions::Uniform::new(lo, hi).sample(rng)
}

/// Relies on `Uniform::new(lo, hi)` over `u64` and its `sample`: a value in
/// `[lo, hi)`; `Uniform::new` panics when the range is empty.
#[verifier::external_body]
pub(crate) fn uniform_u64(rng: &mut MainRng, lo: u64, hi: u64) -> (r: u64)
    requires
        lo < hi,
    ensures
        lo <= r < hi,
        r == uniform_u64_value(rng_words(*old(rng)), lo, hi),
        rng_words(*final(rng)) == uniform_u64_state(rng_words(*old(rng)), lo, hi),
{
    rand::distributions::Uniform::new(lo, hi).sample(rng)
}

/// Relies on `Rng::fill` over a `u64` slice: every slot is overwritten, the
/// length is kept.
#[verifier::external_body]
pub(crate) fn fill_u64s(rng: &mut MainRng, dst: &mut Vec<u64>)
    ensures
        final(dst)@.len() == old(dst)@.len(),
        final(dst)@ == u64_fill_values(rng_words(*old(rng)), old(dst)@.len()),
        rng_words(*final(rng)) == u64_fill_state(rng_words(*old(rng)), old(dst)@.len()),
{
    rng.fill(dst.as_mut_slice())
}

/// Byte `k` of `x` in little-endian order.
pub open spec fn le_byte(x: u64, k: nat) -> u8 {
    (#[verifier::truncate] (((x >> (8 * k) as u64) & 0xff) as u8))
}

/// The 32-byte seed made of the words in order, each little-endian.
pub open spec fn seed_bytes(words: Seq<u64>) -> Seq<u8> {
    Seq::new(8 * words.len(), |j: int| le_byte(words[j / 8], (j % 8) as nat))
}

/// The four words hashed from a seed, a thread id and a purpose label.
pub open spec fn seed_words(seed: u64, thread: u64, purpose: Seq<u8>) -> Seq<u64> {
    Seq::new(4, |i: int| seed_part(i as i32, seed, thread, purpose))
}

/// The 256-bit seed that a stream is built from: four salted hashes of the
/// inputs, each laid out little-endian.
pub fn derive_seed(seed: u64, thread: u64, purpose: &[u8]) -> (r: Vec<u8>)
    ensures
        r@ == seed_bytes(seed_words(seed, thread, purpose@)),
        r@.len() == 32,
{
    let ghost words = seed_words(seed, thread, purpose@);
    assert(seed_bytes(words).len() == 32);
    let mut out: Vec<u8> = Vec::new();
    let mut i: i32 = 0;
    while i < 4
        invariant
            0 <= i <= 4,
            words == seed_words(seed, thread, purpose@),
            seed_bytes(words).len() == 32,
            out@.len() == 8 * i,
            forall|j: int| 0 <= j < out@.len() ==> out@[j] == seed_bytes(words)[j],
        decreases 4 - i,
    {
        let h = hash_seed_part(i, seed, thread, purpose);
        let mut k: u64 = 0;
        while k < 8
            invariant
                0 <= i < 4,
                k <= 8,
                words == seed_words(seed, thread, purpose@),
                seed_bytes(words).len() == 32,
                h == words[i as int],
                out@.len() == 8 * i + k,
                forall|j: int| 0 <= j < out@.len() ==> out@[j] == seed_bytes(words)[j],
            decreases 8 - k,
        {
            let b = (#[verifier::truncate] (((h >> (8 * k)) & 0xff) as u8));
            proof {
                let j = 8 * i + k;
                assert(j / 8 == i as int && j % 8 == k as int);
                assert(seed_bytes(words)[j] == le_byte(words[i as int], k as nat));
            }
            out.push(b);
            k = k + 1;
        }
        i = i + 1;
    }
    assert(out@ =~= seed_bytes(words));
    out
}

/// Reading the little-endian bytes of a word gives the word back.
proof fn lemma_le_bytes_round_trip(x: u64)
    ensures
        ((le_byte(x, 0) as u64) | ((le_byte(x, 1) as u64) << 8u64) | ((le_byte(x, 2) as u64) << 16u64)
            | ((le_byte(x, 3) as u64) << 24u64) | ((le_byte(x, 4) as u64) << 32u64)
            | ((le_byte(x, 5) as u64) << 40u64) | ((le_byte(x, 6) as u64) << 48u64)
            | ((le_byte(x, 7) as u64) << 56u64)) == x,
{
    assert(((((x >> 0u64) & 0xff) as u8) as u64 | (((((x >> 8u64) & 0xff) as u8) as u64) << 8u64)
        | (((((x >> 16u64) & 0xff) as u8) as u64) << 16u64) | (((((x >> 24u64) & 0xff) as u8) as u64) << 24u64)
        | (((((x >> 32u64) & 0xff) as u8) as u64) << 32u64) | (((((x >> 40u64) & 0xff) as u8) as u64) << 40u64)
        | (((((x >> 48u64) & 0xff) as u8) as u64) << 48u64) | (((((x >> 56u64) & 0xff) as u8) as u64) << 56u64))
        == x) by (bit_vector);
}

/// Laying words out little-endian and reading them back gives the same words.
pub proof fn lemma_seed_words_round_trip(words: Seq<u64>)
    ensures
        le_words(seed_bytes(words)) == words,
{
    let b = seed_bytes(words);
    assert(b.len() / 8 == words.len());
    assert forall|i: int| 0 <= i < words.len() implies #[trigger] le_words(b)[i] == words[i] by {
        let x = words[i];
        assert((8 * i + 0) / 8 == i && (8 * i + 0) % 8 == 0) by (nonlinear_arith);
        assert((8 * i + 1) / 8 == i && (8 * i + 1) % 8 == 1) by (nonlinear_arith);
        assert((8 * i + 2) / 8 == i && (8 * i + 2) % 8 == 2) by (nonlinear_arith);
        assert((8 * i + 3) / 8 == i && (8 * i + 3) % 8 == 3) by (nonlinear_arith);
        assert((8 * i + 4) / 8 == i && (8 * i + 4) % 8 == 4) by (nonlinear_arith);
        assert((8 * i + 5) / 8 == i && (8 * i + 5) % 8 == 5) by (nonlinear_arith);
        assert((8 * i + 6) / 8 == i && (8 * i + 6) % 8 == 6) by (nonlinear_arith);
        assert((8 * i + 7) / 8 == i && (8 * i + 7) % 8 == 7) by (nonlinear_arith);
        assert(b.len() == 8 * words.len());
        assert(b[8 * i] == le_byte(x, 0) && b[8 * i + 1] == le_byte(x, 1) && b[8 * i + 2] == le_byte(x, 2)
            && b[8 * i + 3] == le_byte(x, 3) && b[8 * i + 4] == le_byte(x, 4) && b[8 * i + 5] == le_byte(x, 5)
            && b[8 * i + 6] == le_byte(x, 6) && b[8 * i + 7] == le_byte(x, 7));
        lemma_le_bytes_round_trip(x);
    }
    assert(le_words(b) =~= words);
}

/// Every byte of the zero word is zero.
proof fn lemma_zero_bytes()
    ensures
        forall|k: nat| #[trigger] le_byte(0u64, k) == 0,
{
    assert(forall|s: u64| ((0u64 >> s) & 0xffu64) == 0u64) by (bit_vector);
}

/// A non-zero word lays out at least one non-zero byte.
proof fn lemma_nonzero_word_nonzero_byte(words: Seq<u64>, i: int)
    requires
        words.len() == 4,
        0 <= i < 4,
        words[i] != 0,
    ensures
        exists|j: int| 0 <= j < 32 && #[trigger] seed_bytes(words)[j] != 0,
{
    let b = seed_bytes(words);
    lemma_seed_words_round_trip(words);
    assert(le_words(b)[i] == words[i]);
    assert(le_word(b, i) != 0);
    if b[8 * i + 0] == 0 && b[8 * i + 1] == 0 && b[8 * i + 2] == 0 && b[8 * i + 3] == 0 && b[8 * i + 4] == 0 && b[8 * i + 5] == 0 && b[8 * i + 6] == 0 && b[8 * i + 7] == 0 {
        let z: u8 = 0;
        assert(((z as u64) | ((z as u64) << 8u64) | ((z as u64) << 16u64) | ((z as u64) << 24u64)
            | ((z as u64) << 32u64) | ((z as u64) << 40u64) | ((z as u64) << 48u64)
            | ((z as u64) << 56u64)) == 0u64) by (bit_vector)
            requires z == 0u8;
    }
    if b[8 * i + 0] != 0 {
        assert(0 <= 8 * i + 0 < 32);
    }
    if b[8 * i + 1] != 0 {
        assert(0 <= 8 * i + 1 < 32);
    }
    if b[8 * i + 2] != 0 {
        assert(0 <= 8 * i + 2 < 32);
    }
    if b[8 * i + 3] != 0 {
        assert(0 <= 8 * i + 3 < 32);
    }
    if b[8 * i + 4] != 0 {
        assert(0 <= 8 * i + 4 < 32);
    }
    if b[8 * i + 5] != 0 {
        assert(0 <= 8 * i + 5 < 32);
    }
    if b[8 * i + 6] != 0 {
        assert(0 <= 8 * i + 6 < 32);
    }
    if b[8 * i + 7] != 0 {
        assert(0 <= 8 * i + 7 < 32);
    }
}

/// The state a stream starts in: the four hashes, or, should all of them be
/// zero, the fixed state that seeding from zero gives.
pub open spec fn seeded_state(seed: u64, thread: u64, purpose: Seq<u8>) -> Seq<u64> {
    let w = seed_words(seed, thread, purpose);
    if w == seq![0u64, 0u64, 0u64, 0u64] {
        splitmix_words(0)
    } else {
        w
    }
}

/// The seed bytes are all zero exactly when the four words are.
proof fn lemma_seed_bytes_zero(words: Seq<u64>)
    requires
        words.len() == 4,
    ensures
        words == seq![0u64, 0u64, 0u64, 0u64] ==> forall|i: int| 0 <= i < 32 ==> seed_bytes(words)[i] == 0,
        words != seq![0u64, 0u64, 0u64, 0u64] ==> exists|j: int| 0 <= j < 32 && #[trigger] seed_bytes(words)[j] != 0,
{
    if words == seq![0u64, 0u64, 0u64, 0u64] {
        lemma_zero_bytes();
        assert forall|i: int| 0 <= i < 32 implies seed_bytes(words)[i] == 0 by {
            assert(words[i / 8] == 0u64);
        }
    } else {
        if words[0] == 0 && words[1] == 0 && words[2] == 0 && words[3] == 0 {
            assert(words =~= seq![0u64, 0u64, 0u64, 0u64]);
        }
        let i: int = if words[0] != 0 { 0 } else if words[1] != 0 { 1 } else if words[2] != 0 { 2 } else { 3 };
        lemma_nonzero_word_nonzero_byte(words, i);
    }
}

/// Builds a stream from a seed, a thread id and a purpose label (its bytes
/// as the host hands them over). Its state is a function of the three
/// inputs, so equal inputs give equal streams.
pub fn create_zipfc_rng(seed: u64, thread: u64, purpose: &[u8]) -> (r: MainRng)
    ensures
        rng_words(r) == seeded_state(seed, thread, purpose@),
{
    let bytes = derive_seed(seed, thread, purpose);
    proof {
        lemma_seed_bytes_zero(seed_words(seed, thread, purpose@));
        lemma_seed_words_round_trip(seed_words(seed, thread, purpose@));
    }
    rng_from_seed(&bytes)
}

/// The stable mixing hash offered to the host.
pub fn hash_u64(x: u64) -> (r: u64)
    ensures
        r == mix_hash(x),
{
    hash_one(x)
}

/// The next sub-stream: a copy of the current state, after which the
/// handle jumps ahead so that the copy and all later output stay apart.
pub fn next_stream(rng: &mut MainRng) -> (r: MainRng)
    ensures
        r == *old(rng),
        rng_words(*final(rng)) == jump_words(rng_words(*old(rng))),
{
    let x = rng_clone(rng);
    rng_jump(rng);
    x
}

} // verus!
