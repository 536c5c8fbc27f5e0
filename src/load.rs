//! Choosing a key-domain generator by name and running it.

use crate::bytes::bytes_eq;
use crate::keys::{
    corpus_outcome, dense_outcome, mix_outcome, encoded_outcome_u32, encoded_outcome_u64, key_bytes, partitioned_outcome,
    corpus_sample, dense_keys, distinct_keys, fixed_width_keys, gen_int_keys, generate_parallel,
    generate_parallel_u64, load_file_keys, mix_keys, mix_of, partitioned_id_keys, partitioned_ids, Key,
    KeySetError, INT_KEYSPACE_CEILING,
};
use crate::rng::{rng_words, MainRng};
use crate::unique::{unique_u32_outcome, unique_u64_outcome};
use crate::structured::{generate_test, structured_keys, TestKeyShapes};
use vstd::prelude::*;

verus! {

/// A key-set strategy as named by the host.
#[derive(Debug)]
pub enum KeySetName {
    Rng4,
    Rng8,
    Int,
    PartitionedId,
    Test,
    /// A corpus file, by path.
    File(Vec<u8>),
    /// A directory holding the two corpora of the mix, by path.
    Mix(Vec<u8>),
}

/// A strategy with its corpora read in, one key per line.
pub enum KeySource {
    Rng4,
    Rng8,
    Int,
    PartitionedId,
    Test,
    File(Vec<Key>),
    Mix { urls: Vec<Key>, wiki: Vec<Key> },
}

pub open spec fn lit_rng4() -> Seq<u8> { seq![114u8, 110u8, 103u8, 52u8] }
pub open spec fn lit_rng8() -> Seq<u8> { seq![114u8, 110u8, 103u8, 56u8] }
pub open spec fn lit_int() -> Seq<u8> { seq![105u8, 110u8, 116u8] }
pub open spec fn lit_partitioned_id() -> Seq<u8> {
    seq![112u8, 97u8, 114u8, 116u8, 105u8, 116u8, 105u8, 111u8, 110u8, 101u8, 100u8, 95u8, 105u8, 100u8]
}
pub open spec fn lit_test() -> Seq<u8> { seq![116u8, 101u8, 115u8, 116u8] }
pub open spec fn lit_file() -> Seq<u8> { seq![102u8, 105u8, 108u8, 101u8, 58u8] }
pub open spec fn lit_mix() -> Seq<u8> { seq![109u8, 105u8, 120u8, 58u8] }

/// `name` starts with `prefix`.
pub open spec fn starts_with(name: Seq<u8>, prefix: Seq<u8>) -> bool {
    prefix.len() <= name.len() && name.subrange(0, prefix.len() as int) == prefix
}

/// What a strategy name stands for: `rng4`, `rng8`, `int`,
/// `partitioned_id`, `test`, `file:<path>` or `mix:<path>`.
pub open spec fn parsed_as(name: Seq<u8>, r: Option<KeySetName>) -> bool {
    if name == lit_rng4() {
        r matches Some(KeySetName::Rng4)
    } else if name == lit_rng8() {
        r matches Some(KeySetName::Rng8)
    } else if name == lit_int() {
        r matches Some(KeySetName::Int)
    } else if name == lit_partitioned_id() {
        r matches Some(KeySetName::PartitionedId)
    } else if name == lit_test() {
        r matches Some(KeySetName::Test)
    } else if starts_with(name, lit_mix()) {
        r matches Some(KeySetName::Mix(p)) && p@ == name.skip(4)
    } else if starts_with(name, lit_file()) {
        r matches Some(KeySetName::File(p)) && p@ == name.skip(5)
    } else {
        r is None
    }
}

/// Whether `name` starts with `prefix`.
fn has_prefix(name: &Vec<u8>, prefix: &Vec<u8>) -> (r: bool)
    ensures
        r == starts_with(name@, prefix@),
{
    if prefix.len() > name.len() {
        return false;
    }
    let mut i: usize = 0;
    while i < prefix.len()
        invariant
            i <= prefix@.len() <= name@.len(),
            forall|k: int| 0 <= k < i ==> name@[k] == prefix@[k],
        decreases prefix@.len() - i,
    {
        if name[i] != prefix[i] {
            assert(name@.subrange(0, prefix@.len() as int)[i as int] != prefix@[i as int]);
            return false;
        }
        i = i + 1;
    }
    assert(name@.subrange(0, prefix@.len() as int) =~= prefix@);
    true
}

/// The bytes of `name` from `start` on.
fn tail_from(name: &Vec<u8>, start: usize) -> (r: Vec<u8>)
    requires
        start <= name@.len(),
    ensures
        r@ == name@.skip(start as int),
{
    let mut r: Vec<u8> = Vec::new();
    let mut i: usize = start;
    while i < name.len()
        invariant
            start <= i <= name@.len(),
            r@ == name@.subrange(start as int, i as int),
        decreases name@.len() - i,
    {
        r.push(name[i]);
        i = i + 1;
        assert(r@ =~= name@.subrange(start as int, i as int));
    }
    assert(r@ =~= name@.skip(start as int));
    r
}

/// Reads a strategy name; `None` for a name of no known strategy.
pub fn parse_key_set_name(name: &Vec<u8>) -> (r: Option<KeySetName>)
    ensures
        parsed_as(name@, r),
{
    let rng4: Vec<u8> = vec![114u8, 110u8, 103u8, 52u8];
    let rng8: Vec<u8> = vec![114u8, 110u8, 103u8, 56u8];
    let dense: Vec<u8> = vec![105u8, 110u8, 116u8];
    let partitioned_id: Vec<u8> = vec![112u8, 97u8, 114u8, 116u8, 105u8, 116u8, 105u8, 111u8, 110u8, 101u8, 100u8, 95u8, 105u8, 100u8];
    let test: Vec<u8> = vec![116u8, 101u8, 115u8, 116u8];
    let mix: Vec<u8> = vec![109u8, 105u8, 120u8, 58u8];
    let file: Vec<u8> = vec![102u8, 105u8, 108u8, 101u8, 58u8];
    assert(rng4@ =~= lit_rng4() && rng8@ =~= lit_rng8() && dense@ =~= lit_int());
    assert(partitioned_id@ =~= lit_partitioned_id() && test@ =~= lit_test());
    assert(mix@ =~= lit_mix() && file@ =~= lit_file());
    if bytes_eq(name, &rng4) {
        Some(KeySetName::Rng4)
    } else if bytes_eq(name, &rng8) {
        Some(KeySetName::Rng8)
    } else if bytes_eq(name, &dense) {
        Some(KeySetName::Int)
    } else if bytes_eq(name, &partitioned_id) {
        Some(KeySetName::PartitionedId)
    } else if bytes_eq(name, &test) {
        Some(KeySetName::Test)
    } else if has_prefix(name, &mix) {
        Some(KeySetName::Mix(tail_from(name, 4)))
    } else if has_prefix(name, &file) {
        Some(KeySetName::File(tail_from(name, 5)))
    } else {
        None
    }
}

/// Whether a strategy promises keys that are pairwise distinct.
pub open spec fn promises_distinct(source: &KeySource) -> bool {
    !(source is File) && !(source is Mix)
}

/// Runs the strategy and returns exactly `count` keys, or the reason why
/// not. `int_keyspace` is the dense-integer keyspace for the `int` strategy
/// (and for the integer share of a mix); `partition_count` is the number of
/// partitions for partitioned ids.
pub fn zipfc_load_keys(
    rng: &mut MainRng,
    source: &KeySource,
    count: u32,
    int_keyspace: u32,
    partition_count: u32,
    shapes: &TestKeyShapes,
) -> (r: Result<Vec<Key>, KeySetError>)
    ensures
        r matches Ok(keys) ==> keys@.len() == count,
        r matches Ok(keys) ==> promises_distinct(source) ==> distinct_keys(keys@),
        (source is Rng4 || source is Rng8) ==> (r is Err ==> r->Err_0 == KeySetError::RepairExhausted && count > 0),
        source is Rng4 ==> (r matches Ok(keys) ==> fixed_width_keys(keys@, count as nat, 4)),
        source is Rng8 ==> (r matches Ok(keys) ==> fixed_width_keys(keys@, count as nat, 8)),
        source is Int ==> (r matches Ok(keys) ==> dense_keys(keys@, count as nat, int_keyspace)),
        source is PartitionedId ==> (r matches Ok(keys) ==> partitioned_id_keys(keys@, count as nat, partition_count)),
        source is Test ==> (r matches Ok(keys) ==> structured_keys(keys@, count as nat)),
        source matches KeySource::File(lines) ==> (r matches Ok(keys) ==> corpus_sample(keys@, count as nat, lines@)),
        source matches KeySource::Mix { urls, wiki } ==> (r matches Ok(keys) ==> mix_of(keys@, count, urls@, wiki@, int_keyspace)),
        source is Rng4 ==> (r is Err || Some(key_bytes(r->Ok_0@)) == encoded_outcome_u32(count as nat, rng_words(*old(rng)))),
        source is Rng8 ==> (r is Err || Some(key_bytes(r->Ok_0@)) == encoded_outcome_u64(count as nat, rng_words(*old(rng)))),
        source is Rng4 ==> rng_words(*final(rng)) == unique_u32_outcome(count as nat, rng_words(*old(rng))).1,
        source is Rng8 ==> rng_words(*final(rng)) == unique_u64_outcome(count as nat, rng_words(*old(rng))).1,
        source is Int ==> (r is Err || key_bytes(r->Ok_0@) == dense_outcome(count as nat, int_keyspace, rng_words(*old(rng)))),
        source is PartitionedId ==> (r is Err
            || key_bytes(r->Ok_0@) == partitioned_outcome(count as nat, partition_count, rng_words(*old(rng)))),
        source matches KeySource::File(lines) ==> (r is Err
            || key_bytes(r->Ok_0@) == corpus_outcome(lines@, count as nat, rng_words(*old(rng)))),
        source matches KeySource::Mix { urls, wiki } ==> (r is Err
            || Some(key_bytes(r->Ok_0@)) == mix_outcome(count, urls@, wiki@, int_keyspace, rng_words(*old(rng)))),
        source is Mix ==> ((count / 4 == 0 && count <= int_keyspace && int_keyspace < INT_KEYSPACE_CEILING) ==> r is Ok),
        source is Int ==> {
            &&& int_keyspace < count <==> r == Err::<Vec<Key>, KeySetError>(KeySetError::KeyspaceTooSmall)
            &&& (count <= int_keyspace && int_keyspace >= INT_KEYSPACE_CEILING)
                <==> r == Err::<Vec<Key>, KeySetError>(KeySetError::KeyspaceTooLarge)
            &&& (count <= int_keyspace && int_keyspace < INT_KEYSPACE_CEILING) ==> r is Ok
        },
        source is PartitionedId ==> {
            &&& partition_count == 0 <==> r == Err::<Vec<Key>, KeySetError>(KeySetError::NoPartitions)
            &&& partition_count > 0 ==> r is Ok
        },
        source is Test ==> (r is Err ==> r->Err_0 == KeySetError::RepairExhausted && count > 0),
        source matches KeySource::File(lines) ==> {
            &&& lines@.len() < count <==> r == Err::<Vec<Key>, KeySetError>(KeySetError::CorpusTooShort)
            &&& lines@.len() >= count ==> r is Ok
        },
        source matches KeySource::Mix { urls, wiki } ==> {
            &&& (urls@.len() < count / 4 || wiki@.len() < count / 4)
                <==> r == Err::<Vec<Key>, KeySetError>(KeySetError::CorpusTooShort)
            &&& (urls@.len() >= count / 4 && wiki@.len() >= count / 4 && int_keyspace < count - count / 4 * 3)
                <==> r == Err::<Vec<Key>, KeySetError>(KeySetError::KeyspaceTooSmall)
        },
{
    match source {
        KeySource::Rng4 => generate_parallel(count, rng),
        KeySource::Rng8 => generate_parallel_u64(count, rng),
        KeySource::Int => gen_int_keys(count, int_keyspace, rng),
        KeySource::PartitionedId => partitioned_ids(count, partition_count, rng),
        KeySource::Test => generate_test(count, rng, shapes),
        KeySource::File(lines) => load_file_keys(count, rng, lines),
        KeySource::Mix { urls, wiki } => mix_keys(count, rng, urls, wiki, int_keyspace),
    }
}

} // verus!
