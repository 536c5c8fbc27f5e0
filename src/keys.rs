//! Keys and the key-domain generators built on the seeded streams and the
//! unique-value engine.

use crate::rng::{uniform_below, uniform_u32_state, uniform_u32_value, MainRng};
use crate::bytes::{copy_bytes, lemma_rearranged_distinct};
use crate::rng::rng_words;
use crate::unique::{shuffle, shuffle_state, shuffled, unique_u32_outcome, unique_u32s, unique_u64_outcome, unique_u64s};
use vstd::prelude::*;

verus! {

/// An immutable byte string handed to the caller.
#[derive(Debug)]
pub struct Key {
    pub data: Vec<u8>,
}

/// Why a key set could not be produced.
#[derive(Debug, Clone, Copy, PartialEq, Eq)]
pub enum KeySetError {
    /// The dense-integer keyspace is smaller than the number of keys asked for.
    KeyspaceTooSmall,
    /// The dense-integer keyspace reaches the configured ceiling.
    KeyspaceTooLarge,
    /// Partitioned ids were asked for with no partition to draw from.
    NoPartitions,
    /// A corpus holds fewer lines than the keys asked for.
    CorpusTooShort,
    /// The repair of a shortfall of distinct values spent its draw limit.
    RepairExhausted,
}

/// The dense-integer keyspace must stay below this many values.
pub const INT_KEYSPACE_CEILING: u32 = 4_000_000_000;

/// The four bytes of `x`, most significant first.
pub open spec fn be32(x: u32) -> Seq<u8> {
    seq![(x >> 24u32) as u8, (x >> 16u32) as u8, (x >> 8u32) as u8, x as u8]
}

/// The byte strings of a sequence of keys.
pub open spec fn key_bytes(keys: Seq<Key>) -> Seq<Seq<u8>> {
    keys.map_values(|k: Key| k.data@)
}

/// No two keys hold the same bytes.
pub open spec fn distinct_keys(keys: Seq<Key>) -> bool {
    forall|i: int, j: int| 0 <= i < keys.len() && 0 <= j < keys.len() && i != j ==> keys[i].data@ != keys[j].data@
}

/// Distinct integers encode to distinct byte strings.
pub proof fn lemma_be32_injective(x: u32, y: u32)
    requires
        be32(x) == be32(y),
    ensures
        x == y,
{
    assert(be32(x)[0] == be32(y)[0] && be32(x)[1] == be32(y)[1] && be32(x)[2] == be32(y)[2] && be32(x)[3] == be32(y)[3]);
    assert(x == y) by (bit_vector)
        requires
            (x >> 24u32) as u8 == (y >> 24u32) as u8,
            (x >> 16u32) as u8 == (y >> 16u32) as u8,
            (x >> 8u32) as u8 == (y >> 8u32) as u8,
            x as u8 == y as u8,
    ;
}

/// The big-endian encoding of `x`.
pub fn encode_be32(x: u32) -> (r: Vec<u8>)
    ensures
        r@ == be32(x),
{
    let r = vec![(x >> 24u32) as u8, (x >> 16u32) as u8, (x >> 8u32) as u8, x as u8];
    assert(r@ =~= be32(x));
    r
}

/// A key that holds the same bytes as `k`.
pub fn copy_key(k: &Key) -> (r: Key)
    ensures
        r.data@ == k.data@,
{
    Key { data: copy_bytes(&k.data) }
}

/// One big-endian key per value, in order.
pub fn encode_all(vals: &Vec<u32>) -> (r: Vec<Key>)
    ensures
        r@.len() == vals@.len(),
        forall|i: int| 0 <= i < r@.len() ==> #[trigger] r@[i].data@ == be32(vals@[i]),
        vals@.no_duplicates() ==> distinct_keys(r@),
{
    let mut r: Vec<Key> = Vec::new();
    let mut i: usize = 0;
    while i < vals.len()
        invariant
            i <= vals@.len(),
            r@.len() == i,
            forall|j: int| 0 <= j < i ==> #[trigger] r@[j].data@ == be32(vals@[j]),
        decreases vals@.len() - i,
    {
        r.push(Key { data: encode_be32(vals[i]) });
        i = i + 1;
    }
    proof {
        if vals@.no_duplicates() {
            assert forall|a: int, b: int| 0 <= a < r@.len() && 0 <= b < r@.len() && a != b
                implies r@[a].data@ != r@[b].data@ by {
                if r@[a].data@ == r@[b].data@ {
                    lemma_be32_injective(vals@[a], vals@[b]);
                }
            }
        }
    }
    r
}

/// The eight bytes of `x`, most significant first.
pub open spec fn be64(x: u64) -> Seq<u8> {
    Seq::new(8, |i: int| (x >> ((56 - 8 * i) as u64)) as u8)
}

/// The big-endian encoding of `x`.
pub fn encode_be64(x: u64) -> (r: Vec<u8>)
    ensures
        r@ == be64(x),
{
    let mut r: Vec<u8> = Vec::new();
    let mut i: u64 = 0;
    while i < 8
        invariant
            i <= 8,
            r@.len() == i,
            forall|k: int| 0 <= k < i ==> r@[k] == (x >> ((56 - 8 * k) as u64)) as u8,
        decreases 8 - i,
    {
        r.push((#[verifier::truncate] ((x >> (56 - 8 * i)) as u8)));
        i = i + 1;
    }
    assert(r@ =~= be64(x));
    r
}

/// Distinct 64-bit integers encode to distinct byte strings.
pub proof fn lemma_be64_injective(x: u64, y: u64)
    requires
        be64(x) == be64(y),
    ensures
        x == y,
{
    assert(be64(x)[0] == be64(y)[0] && be64(x)[1] == be64(y)[1] && be64(x)[2] == be64(y)[2] && be64(x)[3] == be64(y)[3]);
    assert(be64(x)[4] == be64(y)[4] && be64(x)[5] == be64(y)[5] && be64(x)[6] == be64(y)[6] && be64(x)[7] == be64(y)[7]);
    assert(be64(x)[0] == (x >> 56u64) as u8 && be64(y)[0] == (y >> 56u64) as u8);
    assert(be64(x)[1] == (x >> 48u64) as u8 && be64(y)[1] == (y >> 48u64) as u8);
    assert(be64(x)[2] == (x >> 40u64) as u8 && be64(y)[2] == (y >> 40u64) as u8);
    assert(be64(x)[3] == (x >> 32u64) as u8 && be64(y)[3] == (y >> 32u64) as u8);
    assert(be64(x)[4] == (x >> 24u64) as u8 && be64(y)[4] == (y >> 24u64) as u8);
    assert(be64(x)[5] == (x >> 16u64) as u8 && be64(y)[5] == (y >> 16u64) as u8);
    assert(be64(x)[6] == (x >> 8u64) as u8 && be64(y)[6] == (y >> 8u64) as u8);
    assert(be64(x)[7] == (x >> 0u64) as u8 && be64(y)[7] == (y >> 0u64) as u8);
    assert(x == y) by (bit_vector)
        requires
            (x >> 56u64) as u8 == (y >> 56u64) as u8,
            (x >> 48u64) as u8 == (y >> 48u64) as u8,
            (x >> 40u64) as u8 == (y >> 40u64) as u8,
            (x >> 32u64) as u8 == (y >> 32u64) as u8,
            (x >> 24u64) as u8 == (y >> 24u64) as u8,
            (x >> 16u64) as u8 == (y >> 16u64) as u8,
            (x >> 8u64) as u8 == (y >> 8u64) as u8,
            (x >> 0u64) as u8 == (y >> 0u64) as u8,
    ;
}

/// One big-endian 8-byte key per value, in order.
pub fn encode_all64(vals: &Vec<u64>) -> (r: Vec<Key>)
    ensures
        r@.len() == vals@.len(),
        forall|i: int| 0 <= i < r@.len() ==> #[trigger] r@[i].data@ == be64(vals@[i]),
        vals@.no_duplicates() ==> distinct_keys(r@),
{
    let mut r: Vec<Key> = Vec::new();
    let mut i: usize = 0;
    while i < vals.len()
        invariant
            i <= vals@.len(),
            r@.len() == i,
            forall|j: int| 0 <= j < i ==> #[trigger] r@[j].data@ == be64(vals@[j]),
        decreases vals@.len() - i,
    {
        r.push(Key { data: encode_be64(vals[i]) });
        i = i + 1;
    }
    proof {
        if vals@.no_duplicates() {
            assert forall|a: int, b: int| 0 <= a < r@.len() && 0 <= b < r@.len() && a != b
                implies r@[a].data@ != r@[b].data@ by {
                if r@[a].data@ == r@[b].data@ {
                    lemma_be64_injective(vals@[a], vals@[b]);
                }
            }
        }
    }
    r
}

/// The key bytes that drawing `count` distinct 32-bit values from state `s`
/// gives, each big-endian, or `None` when the repair runs dry.
pub open spec fn encoded_outcome_u32(count: nat, s: Seq<u64>) -> Option<Seq<Seq<u8>>> {
    match unique_u32_outcome(count, s).0 {
        Some(v) => Some(v.map_values(|x: u32| be32(x))),
        None => None,
    }
}

/// The key bytes that drawing `count` distinct 64-bit values from state `s`
/// gives, each big-endian, or `None` when the repair runs dry.
pub open spec fn encoded_outcome_u64(count: nat, s: Seq<u64>) -> Option<Seq<Seq<u8>>> {
    match unique_u64_outcome(count, s).0 {
        Some(v) => Some(v.map_values(|x: u64| be64(x))),
        None => None,
    }
}

/// `count` distinct keys of `width` bytes each.
pub open spec fn fixed_width_keys(keys: Seq<Key>, count: nat, width: nat) -> bool {
    &&& keys.len() == count
    &&& distinct_keys(keys)
    &&& forall|i: int| 0 <= i < keys.len() ==> (#[trigger] keys[i]).data@.len() == width
}

/// `count` distinct big-endian keys of values below `keyspace`.
pub open spec fn dense_keys(keys: Seq<Key>, count: nat, keyspace: u32) -> bool {
    &&& keys.len() == count
    &&& distinct_keys(keys)
    &&& forall|i: int| 0 <= i < keys.len() ==> encodes_below((#[trigger] keys[i]).data@, keyspace)
}

/// Fixed-width random keys of eight bytes: `count` distinct random 64-bit
/// values, each big-endian.
pub fn generate_parallel_u64(count: u32, rng: &mut MainRng) -> (r: Result<Vec<Key>, KeySetError>)
    ensures
        r is Err ==> r->Err_0 == KeySetError::RepairExhausted && count > 0,
        r matches Ok(keys) ==> fixed_width_keys(keys@, count as nat, 8),
        (match r {
            Ok(keys) => Some(key_bytes(keys@)),
            Err(_) => None::<Seq<Seq<u8>>>,
        }) == encoded_outcome_u64(count as nat, rng_words(*old(rng))),
        rng_words(*final(rng)) == unique_u64_outcome(count as nat, rng_words(*old(rng))).1,
{
    match unique_u64s(count, rng) {
        Some(vals) => {
            let keys = encode_all64(&vals);
            assert(key_bytes(keys@) =~= vals@.map_values(|x: u64| be64(x)));
            assert forall|i: int| 0 <= i < keys@.len() implies (#[trigger] keys@[i]).data@.len() == 8 by {
                assert(keys@[i].data@ == be64(vals@[i]));
            }
            Ok(keys)
        },
        None => Err(KeySetError::RepairExhausted),
    }
}

/// Fixed-width random keys: `count` distinct random 32-bit values, each as
/// four big-endian bytes.
pub fn generate_parallel(count: u32, rng: &mut MainRng) -> (r: Result<Vec<Key>, KeySetError>)
    ensures
        r is Err ==> r->Err_0 == KeySetError::RepairExhausted && count > 0,
        r matches Ok(keys) ==> fixed_width_keys(keys@, count as nat, 4),
        (match r {
            Ok(keys) => Some(key_bytes(keys@)),
            Err(_) => None::<Seq<Seq<u8>>>,
        }) == encoded_outcome_u32(count as nat, rng_words(*old(rng))),
        rng_words(*final(rng)) == unique_u32_outcome(count as nat, rng_words(*old(rng))).1,
{
    match unique_u32s(count, rng) {
        Some(vals) => {
            let keys = encode_all(&vals);
            assert(key_bytes(keys@) =~= vals@.map_values(|x: u32| be32(x)));
            assert forall|i: int| 0 <= i < keys@.len() implies (#[trigger] keys@[i]).data@.len() == 4 by {
                assert(keys@[i].data@ == be32(vals@[i]));
            }
            Ok(keys)
        },
        None => Err(KeySetError::RepairExhausted),
    }
}

/// `k` is the big-endian encoding of a value below `n`.
pub open spec fn encodes_below(k: Seq<u8>, n: u32) -> bool {
    exists|v: u32| v < n && k == be32(v)
}

/// The indices `[0, n)` shuffled from generator state `s`.
pub open spec fn permuted_range(n: u32, s: Seq<u64>) -> Seq<u32> {
    shuffled(Seq::new(n as nat, |i: int| i as u32), s)
}

/// The integers `0, 1, ..., n - 1` in order.
pub fn ascending(n: u32) -> (r: Vec<u32>)
    ensures
        r@.len() == n,
        forall|i: int| 0 <= i < n ==> r@[i] == i,
{
    let mut r: Vec<u32> = Vec::new();
    let mut i: u32 = 0;
    while i < n
        invariant
            i <= n,
            r@.len() == i,
            forall|j: int| 0 <= j < i ==> r@[j] == j,
        decreases n - i,
    {
        r.push(i);
        i = i + 1;
    }
    r
}

/// Dense-integer keys: the whole range `[0, keyspace)` is shuffled and its
/// first `count` values are encoded big-endian. The keyspace is the request
/// scaled by the inverse of the density, so `count / keyspace` is the share
/// of the range that is used.
pub fn gen_int_keys(count: u32, keyspace: u32, rng: &mut MainRng) -> (r: Result<Vec<Key>, KeySetError>)
    ensures
        keyspace < count ==> r == Err::<Vec<Key>, KeySetError>(KeySetError::KeyspaceTooSmall),
        count <= keyspace && keyspace >= INT_KEYSPACE_CEILING ==> r == Err::<Vec<Key>, KeySetError>(KeySetError::KeyspaceTooLarge),
        count <= keyspace < INT_KEYSPACE_CEILING ==> r is Ok,
        r matches Ok(keys) ==> dense_keys(keys@, count as nat, keyspace),
        r matches Ok(keys) ==> key_bytes(keys@) == dense_outcome(count as nat, keyspace, rng_words(*old(rng))),
        r is Ok ==> rng_words(*final(rng))
            == shuffle_state(rng_words(*old(rng)), keyspace as nat, vstd::layout::size_of::<u32>()),
{
    if keyspace < count {
        return Err(KeySetError::KeyspaceTooSmall);
    }
    if keyspace >= INT_KEYSPACE_CEILING {
        return Err(KeySetError::KeyspaceTooLarge);
    }
    let mut generated = ascending(keyspace);
    let ghost before = generated@;
    assert(before =~= Seq::new(keyspace as nat, |i: int| i as u32));
    proof {
        assert(before.no_duplicates());
    }
    shuffle(&mut generated, rng);
    proof {
        lemma_rearranged_distinct(before, generated@);
        before.to_multiset_ensures();
        generated@.to_multiset_ensures();
        assert forall|i: int| 0 <= i < generated@.len() implies #[trigger] generated@[i] < keyspace by {
            let x = generated@[i];
            assert(generated@.contains(x));
            assert(generated@.to_multiset().count(x) > 0);
            assert(before.to_multiset().count(x) > 0);
            assert(before.contains(x));
            let j = choose|j: int| 0 <= j < before.len() && before[j] == x;
            assert(before[j] == j);
        }
    }
    let ghost shuffled = generated@;
    assert(forall|i: int| 0 <= i < shuffled.len() ==> #[trigger] shuffled[i] < keyspace);
    generated.truncate(count as usize);
    proof {
        assert(generated@ =~= shuffled.subrange(0, count as int));
        assert(generated@.no_duplicates());
    }
    let keys = encode_all(&generated);
    assert(key_bytes(keys@) =~= generated@.map_values(|x: u32| be32(x)));
    proof {
        assert forall|i: int| 0 <= i < keys@.len() implies encodes_below((#[trigger] keys@[i]).data@, keyspace) by {
            assert(keys@[i].data@ == be32(generated@[i]));
            assert(generated@[i] == shuffled[i]);
            assert(shuffled[i] < keyspace);
            assert(keys@[i].data@ == be32(generated@[i]) && generated@[i] < keyspace);
        }
    }
    Ok(keys)
}

/// How many times `p` occurs in `s`.
pub open spec fn occurrences(s: Seq<u32>, p: u32) -> nat
    decreases s.len(),
{
    if s.len() == 0 {
        0
    } else {
        occurrences(s.drop_last(), p) + if s.last() == p {
            1nat
        } else {
            0nat
        }
    }
}

/// The key of draw `i`: its partition, then how often that partition was
/// drawn before it, both big-endian.
pub open spec fn partitioned_key(draws: Seq<u32>, i: int) -> Seq<u8> {
    be32(draws[i]) + be32(occurrences(draws.take(i), draws[i]) as u32)
}

proof fn lemma_occurrences_bounded(s: Seq<u32>, p: u32)
    ensures
        occurrences(s, p) <= s.len(),
    decreases s.len(),
{
    if s.len() > 0 {
        lemma_occurrences_bounded(s.drop_last(), p);
    }
}

proof fn lemma_occurrences_step(s: Seq<u32>, i: int, p: u32)
    requires
        0 <= i < s.len(),
    ensures
        occurrences(s.take(i + 1), p) == occurrences(s.take(i), p) + if s[i] == p {
            1nat
        } else {
            0nat
        },
{
    assert(s.take(i + 1).drop_last() =~= s.take(i));
}

/// Each later draw of a partition has seen strictly more earlier draws of it.
proof fn lemma_occurrences_grow(s: Seq<u32>, i: int, j: int)
    requires
        0 <= i < j <= s.len(),
    ensures
        occurrences(s.take(j), s[i]) > occurrences(s.take(i), s[i]),
    decreases j - i,
{
    lemma_occurrences_step(s, j - 1, s[i]);
    if j > i + 1 {
        lemma_occurrences_grow(s, i, j - 1);
    }
}

/// Two pairs of big-endian integers are equal only when both halves are.
proof fn lemma_pair_injective(a: u32, b: u32, c: u32, d: u32)
    requires
        be32(a) + be32(b) == be32(c) + be32(d),
    ensures
        a == c && b == d,
{
    assert((be32(a) + be32(b)).subrange(0, 4) =~= be32(a));
    assert((be32(c) + be32(d)).subrange(0, 4) =~= be32(c));
    assert((be32(a) + be32(b)).subrange(4, 8) =~= be32(b));
    assert((be32(c) + be32(d)).subrange(4, 8) =~= be32(d));
    lemma_be32_injective(a, c);
    lemma_be32_injective(b, d);
}

/// Within one partition, the ids run up in emission order, each stays below
/// the number of draws of that partition, and so the ids of a partition
/// drawn `k` times are exactly `0, 1, ..., k - 1`.
pub proof fn lemma_partition_ids_consecutive(draws: Seq<u32>, i: int, j: int)
    requires
        0 <= i < j < draws.len(),
        draws[i] == draws[j],
    ensures
        occurrences(draws.take(i), draws[i]) < occurrences(draws.take(j), draws[j]),
        occurrences(draws.take(j), draws[j]) < occurrences(draws, draws[j]),
{
    lemma_occurrences_grow(draws, i, j);
    lemma_occurrences_grow(draws, j, draws.len() as int);
    assert(draws.take(draws.len() as int) =~= draws);
}

/// The ids given to partition `p`, in emission order: draw `i` of `p` gets
/// the number of earlier draws of `p`, as in `partitioned_key`.
pub open spec fn ids_of(draws: Seq<u32>, p: u32) -> Seq<nat>
    decreases draws.len(),
{
    if draws.len() == 0 {
        Seq::empty()
    } else {
        let d = draws.drop_last();
        ids_of(d, p) + if draws.last() == p {
            seq![occurrences(d, p)]
        } else {
            Seq::<nat>::empty()
        }
    }
}

/// For each partition drawn `k` times, the ids it was given, in emission
/// order (and so also sorted), are exactly `0, 1, ..., k - 1`.
pub proof fn lemma_partition_ids_are_range(draws: Seq<u32>, p: u32)
    ensures
        ids_of(draws, p) == Seq::new(occurrences(draws, p), |i: int| i as nat),
    decreases draws.len(),
{
    if draws.len() > 0 {
        lemma_partition_ids_are_range(draws.drop_last(), p);
        assert(ids_of(draws, p) =~= Seq::new(occurrences(draws, p), |i: int| i as nat));
    } else {
        assert(ids_of(draws, p) =~= Seq::new(occurrences(draws, p), |i: int| i as nat));
    }
}

/// The partitioned-id keys for a given sequence of partition draws: each
/// draw emits its partition and that partition's next id, then advances it.
pub fn partitioned_keys_from_draws(draws: &Vec<u32>, partition_count: u32) -> (r: Vec<Key>)
    requires
        forall|i: int| 0 <= i < draws@.len() ==> #[trigger] draws@[i] < partition_count,
        draws@.len() <= u32::MAX,
    ensures
        r@.len() == draws@.len(),
        forall|i: int| 0 <= i < r@.len() ==> (#[trigger] r@[i]).data@ == partitioned_key(draws@, i),
        distinct_keys(r@),
{
    let mut next_id: Vec<u32> = Vec::new();
    let mut q: u32 = 0;
    while q < partition_count
        invariant
            q <= partition_count,
            next_id@.len() == q,
            forall|k: int| 0 <= k < q ==> next_id@[k] == 0,
        decreases partition_count - q,
    {
        next_id.push(0);
        q = q + 1;
    }
    assert(draws@.take(0) =~= Seq::<u32>::empty());
    let mut r: Vec<Key> = Vec::new();
    let mut i: usize = 0;
    while i < draws.len()
        invariant
            i <= draws@.len() <= u32::MAX,
            forall|k: int| 0 <= k < draws@.len() ==> #[trigger] draws@[k] < partition_count,
            next_id@.len() == partition_count,
            forall|k: int| 0 <= k < partition_count ==> #[trigger] next_id@[k] == occurrences(draws@.take(i as int), k as u32),
            r@.len() == i,
            forall|k: int| 0 <= k < i ==> (#[trigger] r@[k]).data@ == partitioned_key(draws@, k),
        decreases draws@.len() - i,
    {
        let p = draws[i];
        let id = next_id[p as usize];
        proof {
            lemma_occurrences_bounded(draws@.take(i as int), p);
            assert(next_id@[p as int] == occurrences(draws@.take(i as int), p));
        }
        let mut data = encode_be32(p);
        let mut tail = encode_be32(id);
        data.append(&mut tail);
        r.push(Key { data });
        next_id.set(p as usize, id + 1);
        proof {
            assert forall|k: int| 0 <= k < partition_count implies #[trigger] next_id@[k] == occurrences(draws@.take(i + 1), k as u32) by {
                lemma_occurrences_step(draws@, i as int, k as u32);
            }
        }
        i = i + 1;
    }
    proof {
        assert forall|a: int, b: int| 0 <= a < r@.len() && 0 <= b < r@.len() && a != b implies r@[a].data@ != r@[b].data@ by {
            if r@[a].data@ == r@[b].data@ {
                let oa = occurrences(draws@.take(a), draws@[a]);
                let ob = occurrences(draws@.take(b), draws@[b]);
                lemma_occurrences_bounded(draws@.take(a), draws@[a]);
                lemma_occurrences_bounded(draws@.take(b), draws@[b]);
                lemma_pair_injective(draws@[a], oa as u32, draws@[b], ob as u32);
                if a < b {
                    lemma_occurrences_grow(draws@, a, b);
                } else {
                    lemma_occurrences_grow(draws@, b, a);
                }
            }
        }
    }
    r
}

/// `count` distinct partitioned-id keys, for some draws of partitions below
/// `partition_count`.
pub open spec fn partitioned_id_keys(keys: Seq<Key>, count: nat, partition_count: u32) -> bool {
    &&& keys.len() == count
    &&& distinct_keys(keys)
    &&& exists|draws: Seq<u32>| #![trigger draws.len()] {
        &&& draws.len() == count
        &&& forall|i: int| 0 <= i < count ==> #[trigger] draws[i] < partition_count
        &&& forall|i: int| 0 <= i < count ==> (#[trigger] keys[i]).data@ == partitioned_key(draws, i)
    }
}

/// The partitions of `n` uniform draws below `pc` from state `s`, in order.
pub open spec fn partition_draws(s: Seq<u64>, n: nat, pc: u32) -> Seq<u32>
    decreases n,
{
    if n == 0 {
        Seq::empty()
    } else {
        seq![uniform_u32_value(s, pc)] + partition_draws(uniform_u32_state(s, pc), (n - 1) as nat, pc)
    }
}

/// The state after those draws.
pub open spec fn partition_draws_state(s: Seq<u64>, n: nat, pc: u32) -> Seq<u64>
    decreases n,
{
    if n == 0 {
        s
    } else {
        partition_draws_state(uniform_u32_state(s, pc), (n - 1) as nat, pc)
    }
}

/// Partitioned sequential ids: `count` draws of a uniformly random partition
/// below `partition_count`, each emitting the partition and its next id.
pub fn partitioned_ids(count: u32, partition_count: u32, rng: &mut MainRng) -> (r: Result<Vec<Key>, KeySetError>)
    ensures
        partition_count == 0 <==> r == Err::<Vec<Key>, KeySetError>(KeySetError::NoPartitions),
        partition_count > 0 ==> r is Ok,
        r matches Ok(keys) ==> partitioned_id_keys(keys@, count as nat, partition_count),
        r matches Ok(keys) ==> forall|i: int| 0 <= i < count ==> (#[trigger] keys@[i]).data@
            == partitioned_key(partition_draws(rng_words(*old(rng)), count as nat, partition_count), i),
        r is Ok ==> rng_words(*final(rng)) == partition_draws_state(rng_words(*old(rng)), count as nat, partition_count),
        r matches Ok(keys) ==> key_bytes(keys@) == partitioned_outcome(count as nat, partition_count, rng_words(*old(rng))),
{
    if partition_count == 0 {
        return Err(KeySetError::NoPartitions);
    }
    let ghost s0 = rng_words(*rng);
    let mut draws: Vec<u32> = Vec::new();
    let mut i: u32 = 0;
    while i < count
        invariant
            i <= count,
            partition_count > 0,
            draws@.len() == i,
            forall|k: int| 0 <= k < i ==> #[trigger] draws@[k] < partition_count,
            s0 == rng_words(*old(rng)),
            draws@ + partition_draws(rng_words(*rng), (count - i) as nat, partition_count)
                == partition_draws(s0, count as nat, partition_count),
            partition_draws_state(rng_words(*rng), (count - i) as nat, partition_count)
                == partition_draws_state(s0, count as nat, partition_count),
        decreases count - i,
    {
        let ghost before = rng_words(*rng);
        let ghost prev = draws@;
        let d = uniform_below(rng, partition_count);
        draws.push(d);
        proof {
            let rest = partition_draws(rng_words(*rng), (count - i - 1) as nat, partition_count);
            assert(partition_draws(before, (count - i) as nat, partition_count) == seq![d] + rest);
            assert(draws@ + rest =~= prev + (seq![d] + rest));
        }
        i = i + 1;
    }
    assert(draws@ + partition_draws(rng_words(*rng), 0, partition_count) =~= draws@);
    let keys = partitioned_keys_from_draws(&draws, partition_count);
    assert(draws@.len() == count);
    assert(key_bytes(keys@) =~= partitioned_outcome(count as nat, partition_count, rng_words(*old(rng))));
    Ok(keys)
}

/// Every key repeats the line at its index, and no line is used twice.
pub open spec fn sampled_from(keys: Seq<Key>, lines: Seq<Key>, idx: Seq<usize>) -> bool {
    &&& idx.len() == keys.len()
    &&& idx.no_duplicates()
    &&& forall|i: int| 0 <= i < idx.len() ==> #[trigger] idx[i] < lines.len()
    &&& forall|i: int| 0 <= i < idx.len() ==> (#[trigger] keys[i]).data@ == lines[idx[i] as int].data@
}

/// Some key repeats line `j`.
pub open spec fn line_used(idx: Seq<usize>, j: int) -> bool {
    exists|i: int| 0 <= i < idx.len() && idx[i] == j
}

/// Sampling as many keys as the corpus has lines uses every line exactly
/// once: the keys are a permutation of the lines.
pub proof fn lemma_full_sample_is_permutation(keys: Seq<Key>, lines: Seq<Key>, idx: Seq<usize>)
    requires
        sampled_from(keys, lines, idx),
        keys.len() == lines.len(),
    ensures
        forall|j: int| 0 <= j < lines.len() ==> #[trigger] line_used(idx, j),
{
    let n = lines.len() as int;
    let ii = idx.map_values(|u: usize| u as int);
    assert(ii.no_duplicates()) by {
        assert forall|a: int, b: int| 0 <= a < ii.len() && 0 <= b < ii.len() && a != b implies ii[a] != ii[b] by {
            assert(idx[a] != idx[b]);
        }
    }
    ii.unique_seq_to_set();
    vstd::set_lib::lemma_int_range(0, n);
    vstd::seq_lib::seq_to_set_is_finite(ii);
    assert(ii.to_set().subset_of(vstd::set_lib::set_int_range(0, n))) by {
        assert forall|x: int| ii.to_set().contains(x) implies vstd::set_lib::set_int_range(0, n).contains(x) by {
            assert(ii.contains(x));
            let k = choose|k: int| 0 <= k < ii.len() && ii[k] == x;
            assert(idx[k] < lines.len());
        }
    }
    vstd::set_lib::lemma_subset_equality(ii.to_set(), vstd::set_lib::set_int_range(0, n));
    assert forall|j: int| 0 <= j < lines.len() implies #[trigger] line_used(idx, j) by {
        assert(vstd::set_lib::set_int_range(0, n).contains(j));
        assert(ii.to_set().contains(j));
        assert(ii.contains(j));
        let k = choose|k: int| 0 <= k < ii.len() && ii[k] == j;
        assert(idx[k] == j);
    }
}

/// The indices `0, 1, ..., n - 1` in order.
fn ascending_usize(n: usize) -> (r: Vec<usize>)
    ensures
        r@.len() == n,
        forall|i: int| 0 <= i < n ==> r@[i] == i,
{
    let mut r: Vec<usize> = Vec::new();
    let mut i: usize = 0;
    while i < n
        invariant
            i <= n,
            r@.len() == i,
            forall|j: int| 0 <= j < i ==> r@[j] == j,
        decreases n - i,
    {
        r.push(i);
        i = i + 1;
    }
    r
}

/// `count` of the keys, in random order, none used twice.
pub fn sample_keys(lines: &Vec<Key>, count: usize, rng: &mut MainRng) -> (r: Vec<Key>)
    requires
        count <= lines@.len(),
    ensures
        r@.len() == count,
        exists|idx: Seq<usize>| sampled_from(r@, lines@, idx),
        forall|i: int| 0 <= i < count ==> (#[trigger] r@[i]).data@
            == lines@[index_order(lines@.len(), rng_words(*old(rng)))[i] as int].data@,
        forall|i: int| 0 <= i < count ==> #[trigger] index_order(lines@.len(), rng_words(*old(rng)))[i] < lines@.len(),
        rng_words(*final(rng)) == shuffle_state(rng_words(*old(rng)), lines@.len(), vstd::layout::size_of::<usize>()),
{
    let mut order = ascending_usize(lines.len());
    let ghost before = order@;
    assert(before =~= Seq::new(lines@.len(), |j: int| j as usize));
    proof {
        assert(before.no_duplicates());
    }
    shuffle(&mut order, rng);
    proof {
        lemma_usize_permutation(before, order@, lines@.len());
    }
    let mut keys: Vec<Key> = Vec::new();
    let mut picked: Vec<usize> = Vec::new();
    let mut i: usize = 0;
    while i < count
        invariant
            i <= count <= lines@.len() == order@.len(),
            order@.no_duplicates(),
            forall|k: int| 0 <= k < order@.len() ==> #[trigger] order@[k] < lines@.len(),
            picked@ == order@.take(i as int),
            keys@.len() == i,
            forall|k: int| 0 <= k < i ==> (#[trigger] keys@[k]).data@ == lines@[order@[k] as int].data@,
        decreases count - i,
    {
        let at = order[i];
        keys.push(copy_key(&lines[at]));
        picked.push(at);
        i = i + 1;
        assert(picked@ =~= order@.take(i as int));
    }
    assert(sampled_from(keys@, lines@, picked@));
    keys
}

/// The order that shuffling `n` indices from state `s` gives.
pub open spec fn index_order(n: nat, s: Seq<u64>) -> Seq<usize> {
    shuffled(Seq::new(n, |j: int| j as usize), s)
}

/// The lines that shuffling the corpus from state `s` puts first, `count`
/// of them.
pub open spec fn corpus_outcome(lines: Seq<Key>, count: nat, s: Seq<u64>) -> Seq<Seq<u8>> {
    Seq::new(count, |i: int| lines[index_order(lines.len(), s)[i] as int].data@)
}

/// The dense-integer key bytes that shuffling `[0, keyspace)` from state `s`
/// and keeping the first `count` gives.
pub open spec fn dense_outcome(count: nat, keyspace: u32, s: Seq<u64>) -> Seq<Seq<u8>> {
    permuted_range(keyspace, s).take(count as int).map_values(|x: u32| be32(x))
}

/// The partitioned-id key bytes that `count` partition draws below `pc`
/// from state `s` give.
pub open spec fn partitioned_outcome(count: nat, pc: u32, s: Seq<u64>) -> Seq<Seq<u8>> {
    Seq::new(count, |i: int| partitioned_key(partition_draws(s, count, pc), i))
}

/// `count` lines of the corpus, none used twice.
pub open spec fn corpus_sample(keys: Seq<Key>, count: nat, lines: Seq<Key>) -> bool {
    &&& keys.len() == count
    &&& exists|idx: Seq<usize>| sampled_from(keys, lines, idx)
}

/// Corpus sampling: the lines are put in random order and the first `count`
/// are kept. A corpus shorter than the request is refused, never padded.
pub fn load_file_keys(count: u32, rng: &mut MainRng, lines: &Vec<Key>) -> (r: Result<Vec<Key>, KeySetError>)
    ensures
        lines@.len() < count <==> r == Err::<Vec<Key>, KeySetError>(KeySetError::CorpusTooShort),
        lines@.len() >= count ==> r is Ok,
        r matches Ok(keys) ==> corpus_sample(keys@, count as nat, lines@),
        r matches Ok(keys) ==> key_bytes(keys@) == corpus_outcome(lines@, count as nat, rng_words(*old(rng))),
        r is Ok ==> rng_words(*final(rng)) == shuffle_state(rng_words(*old(rng)), lines@.len(), vstd::layout::size_of::<usize>()),
{
    if lines.len() < count as usize {
        return Err(KeySetError::CorpusTooShort);
    }
    let keys = sample_keys(lines, count as usize, rng);
    assert(key_bytes(keys@) =~= corpus_outcome(lines@, count as nat, rng_words(*old(rng))));
    Ok(keys)
}

/// A shuffled run of distinct indices below `n` keeps both properties.
proof fn lemma_usize_permutation(a: Seq<usize>, b: Seq<usize>, n: nat)
    requires
        a.no_duplicates(),
        a.len() == n,
        forall|i: int| 0 <= i < n ==> a[i] == i,
        a.to_multiset() == b.to_multiset(),
    ensures
        b.no_duplicates(),
        b.len() == n,
        forall|k: int| 0 <= k < b.len() ==> #[trigger] b[k] < n,
{
    a.lemma_multiset_has_no_duplicates();
    b.lemma_multiset_has_no_duplicates_conv();
    a.to_multiset_ensures();
    b.to_multiset_ensures();
    assert forall|k: int| 0 <= k < b.len() implies #[trigger] b[k] < n by {
        let x = b[k];
        assert(b.contains(x));
        assert(a.to_multiset().count(x) > 0);
        assert(a.contains(x));
        let j = choose|j: int| 0 <= j < a.len() && a[j] == x;
        assert(a[j] == j);
    }
}

/// Appends all keys of `src` to `dst`.
fn append_keys(dst: &mut Vec<Key>, src: Vec<Key>)
    ensures
        final(dst)@ == old(dst)@ + src@,
{
    let mut src = src;
    dst.append(&mut src);
}

/// The four parts of a mix, in order: a quarter fixed-width random keys, a
/// quarter lines of each corpus, and the rest dense integers.
pub open spec fn mix_parts(parts: Seq<Key>, count: u32, urls: Seq<Key>, wiki: Seq<Key>, int_keyspace: u32) -> bool {
    let q = (count / 4) as int;
    &&& parts.len() == count
    &&& fixed_width_keys(parts.subrange(0, q), q as nat, 4)
    &&& corpus_sample(parts.subrange(q, 2 * q), q as nat, urls)
    &&& corpus_sample(parts.subrange(2 * q, 3 * q), q as nat, wiki)
    &&& dense_keys(parts.subrange(3 * q, count as int), (count - 3 * q) as nat, int_keyspace)
}

/// The key bytes of a mix drawn from state `s`, or `None` when the repair of
/// its fixed-width part runs dry: the four parts are drawn in order, each
/// from the state the previous one left, and then rearranged.
pub open spec fn mix_outcome(count: u32, urls: Seq<Key>, wiki: Seq<Key>, int_keyspace: u32, s: Seq<u64>) -> Option<Seq<Seq<u8>>> {
    let q = (count / 4) as nat;
    let rest = (count - (count / 4) * 3) as nat;
    match encoded_outcome_u32(q, s) {
        None => None,
        Some(a) => {
            let s1 = unique_u32_outcome(q, s).1;
            let b = corpus_outcome(urls, q, s1);
            let s2 = shuffle_state(s1, urls.len(), vstd::layout::size_of::<usize>());
            let c = corpus_outcome(wiki, q, s2);
            let s3 = shuffle_state(s2, wiki.len(), vstd::layout::size_of::<usize>());
            let d = dense_outcome(rest, int_keyspace, s3);
            let s4 = shuffle_state(s3, int_keyspace as nat, vstd::layout::size_of::<u32>());
            let parts = a + b + c + d;
            Some(Seq::new(parts.len(), |i: int| parts[index_order(parts.len(), s4)[i] as int]))
        },
    }
}

/// A mix: some choice of its four parts, rearranged at random.
pub open spec fn mix_of(keys: Seq<Key>, count: u32, urls: Seq<Key>, wiki: Seq<Key>, int_keyspace: u32) -> bool {
    &&& keys.len() == count
    &&& exists|parts: Seq<Key>, idx: Seq<usize>| mix_parts(parts, count, urls, wiki, int_keyspace) && sampled_from(keys, parts, idx)
}

/// Corpus mix: a quarter fixed-width random keys, a quarter from each of two
/// corpora, the rest dense integers over `int_keyspace`; the whole is shuffled.
/// All parameters are checked before anything is drawn.
pub fn mix_keys(
    count: u32,
    rng: &mut MainRng,
    urls: &Vec<Key>,
    wiki: &Vec<Key>,
    int_keyspace: u32,
) -> (r: Result<Vec<Key>, KeySetError>)
    ensures
        (urls@.len() < count / 4 || wiki@.len() < count / 4) <==> r == Err::<Vec<Key>, KeySetError>(KeySetError::CorpusTooShort),
        (urls@.len() >= count / 4 && wiki@.len() >= count / 4 && int_keyspace < count - count / 4 * 3)
            <==> r == Err::<Vec<Key>, KeySetError>(KeySetError::KeyspaceTooSmall),
        (urls@.len() >= count / 4 && wiki@.len() >= count / 4 && count - count / 4 * 3 <= int_keyspace
            && int_keyspace >= INT_KEYSPACE_CEILING) <==> r == Err::<Vec<Key>, KeySetError>(KeySetError::KeyspaceTooLarge),
        r is Err ==> r->Err_0 != KeySetError::NoPartitions,
        (count / 4 == 0 && count <= int_keyspace && int_keyspace < INT_KEYSPACE_CEILING) ==> r is Ok,
        r matches Ok(keys) ==> mix_of(keys@, count, urls@, wiki@, int_keyspace),
        r matches Ok(keys) ==> Some(key_bytes(keys@)) == mix_outcome(count, urls@, wiki@, int_keyspace, rng_words(*old(rng))),
{
    let ghost s0 = rng_words(*rng);
    let quarter = count / 4;
    let rest = count - quarter * 3;
    if urls.len() < quarter as usize || wiki.len() < quarter as usize {
        return Err(KeySetError::CorpusTooShort);
    }
    if int_keyspace < rest {
        return Err(KeySetError::KeyspaceTooSmall);
    }
    if int_keyspace >= INT_KEYSPACE_CEILING {
        return Err(KeySetError::KeyspaceTooLarge);
    }
    let mut out = match generate_parallel(quarter, rng) {
        Ok(k) => k,
        Err(e) => {
            return Err(e);
        },
    };
    let ghost a = out@;
    let ghost s1 = rng_words(*rng);
    let from_urls = match load_file_keys(quarter, rng, urls) {
        Ok(k) => k,
        Err(e) => {
            return Err(e);
        },
    };
    let ghost b = from_urls@;
    let ghost s2 = rng_words(*rng);
    append_keys(&mut out, from_urls);
    let from_wiki = match load_file_keys(quarter, rng, wiki) {
        Ok(k) => k,
        Err(e) => {
            return Err(e);
        },
    };
    let ghost c = from_wiki@;
    let ghost s3 = rng_words(*rng);
    append_keys(&mut out, from_wiki);
    let ints = match gen_int_keys(rest, int_keyspace, rng) {
        Ok(k) => k,
        Err(e) => {
            return Err(e);
        },
    };
    let ghost d = ints@;
    let ghost s4 = rng_words(*rng);
    append_keys(&mut out, ints);
    let ghost parts = out@;
    proof {
        let q = quarter as int;
        assert(parts =~= a + b + c + d);
        assert(parts.subrange(0, q) =~= a);
        assert(parts.subrange(q, 2 * q) =~= b);
        assert(parts.subrange(2 * q, 3 * q) =~= c);
        assert(parts.subrange(3 * q, count as int) =~= d);
        assert(mix_parts(parts, count, urls@, wiki@, int_keyspace));
    }
    let keys = sample_keys(&out, out.len(), rng);
    proof {
        let pb = key_bytes(a) + key_bytes(b) + key_bytes(c) + key_bytes(d);
        assert(key_bytes(parts) =~= pb);
        assert(mix_outcome(count, urls@, wiki@, int_keyspace, s0) == Some(
            Seq::new(pb.len(), |i: int| pb[index_order(pb.len(), s4)[i] as int]),
        ));
        let o = index_order(pb.len(), s4);
        assert forall|i: int| 0 <= i < keys@.len() implies key_bytes(keys@)[i] == pb[o[i] as int] by {
            assert(o[i] < parts.len());
            assert(keys@[i].data@ == parts[o[i] as int].data@);
            assert(key_bytes(parts)[o[i] as int] == parts[o[i] as int].data@);
        }
        assert(key_bytes(keys@) =~= Seq::new(pb.len(), |i: int| pb[o[i] as int]));
        let idx = choose|idx: Seq<usize>| sampled_from(keys@, parts, idx);
        assert(mix_parts(parts, count, urls@, wiki@, int_keyspace) && sampled_from(keys@, parts, idx));
    }
    Ok(keys)
}

} // verus!
