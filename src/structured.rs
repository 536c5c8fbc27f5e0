//! Structured synthetic keys: short random byte strings, ASCII bit strings,
//! '/'-joined dictionary paths and sequential integers, mixed at random.

use crate::bytes::{
    contains_bytes, copy_bytes, lemma_append_distinct, lemma_lex_total, lex_lt, contains_sorted_bytes, dedup_sorted_bytes, lemma_rearranged_distinct,
    lemma_strictly_ascending_distinct, sort_byte_strings, strictly_ascending, views,
};
use crate::keys::{distinct_keys, encode_be64, key_bytes, Key, KeySetError};
use crate::rng::{
    fill_random_bytes, hash_pair, next_bool, next_stream, next_u64, rng_from_u64,
    uniform_u8, uniform_usize, MainRng,
};
use crate::unique::REPAIR_DRAW_LIMIT;
use rand::distributions::Distribution;
use rand_distr::Geometric;
use vstd::prelude::*;

verus! {

#[verifier::external_type_specification]
#[verifier::external_body]
pub struct ExGeometric(Geometric);

/// Relies on `Geometric`'s `sample`: a count of failures before a success.
#[verifier::external_body]
fn geometric_sample(d: &Geometric, rng: &mut MainRng) -> (r: u64) {
    d.sample(rng)
}

/// The language code of English among the word lists.
pub const ENGLISH: u8 = 0;

/// The word list of a language, each word as its UTF-8 bytes, in order.
pub uninterp spec fn word_list(language: u8) -> Seq<Seq<u8>>;

/// Relies on `random_word::all(Lang::En)`: the English word list, each word
/// as its UTF-8 bytes, in the list's order. It is read from a fixed,
/// non-empty data file bundled with the crate.
#[verifier::external_body]
fn english_words() -> (r: Vec<Vec<u8>>)
    ensures
        r@.len() > 0,
        r@.map_values(|w: Vec<u8>| w@) == word_list(ENGLISH),
{
    random_word::all(random_word::Lang::En).iter().map(|w| w.as_bytes().to_vec()).collect()
}

/// The two geometric laws of the structured keys: how many candidate words a
/// path segment weighs, and how far a sequential key advances.
pub struct TestKeyShapes {
    pub segment_choice: Geometric,
    pub sequential_step: Geometric,
}

/// Words joined in order, a '/' before each word once the path is non-empty.
pub open spec fn join_path(ws: Seq<Seq<u8>>) -> Seq<u8>
    decreases ws.len(),
{
    if ws.len() == 0 {
        Seq::empty()
    } else {
        let p = join_path(ws.drop_last());
        if p.len() > 0 {
            p + seq![47u8] + ws.last()
        } else {
            p + ws.last()
        }
    }
}

/// `k` is a path of 8 to 11 words of the list.
pub open spec fn is_word_path(k: Seq<u8>, words: Seq<Seq<u8>>) -> bool {
    exists|ids: Seq<int>| #![trigger ids.len()] {
        &&& 8 <= ids.len() < 12
        &&& forall|i: int| 0 <= i < ids.len() ==> 0 <= #[trigger] ids[i] < words.len()
        &&& k == join_path(ids.map_values(|j: int| words[j]))
    }
}

/// Every byte is ASCII '0' or '1'.
pub open spec fn is_bit_string(k: Seq<u8>) -> bool {
    forall|i: int| 0 <= i < k.len() ==> #[trigger] k[i] == 48u8 || k[i] == 49u8
}

/// One of the four shapes of structured keys.
pub open spec fn is_test_key(k: Seq<u8>, words: Seq<Seq<u8>>) -> bool {
    ||| 3 <= k.len() < 8
    ||| 20 <= k.len() < 60 && is_bit_string(k)
    ||| is_word_path(k, words)
    ||| k.len() == 8
}

/// A path of dictionary words. Each segment's word is picked among a
/// geometrically weighted number of choices, hashed together with a seed
/// that runs along the path, so that keys tend to share prefixes.
fn word_path(r: &mut MainRng, words: &Vec<Vec<u8>>, path_seed: u64, shapes: &TestKeyShapes) -> (k: Vec<u8>)
    requires
        words@.len() > 0,
    ensures
        is_word_path(k@, views(words@)),
{
    let ghost ws = views(words@);
    let mut key: Vec<u8> = Vec::new();
    let mut segment_seed = path_seed;
    let segment_count = uniform_usize(r, 8, 12);
    let ghost mut ids: Seq<int> = Seq::empty();
    let mut s: usize = 0;
    assert(ids.map_values(|j: int| ws[j]) =~= Seq::<Seq<u8>>::empty());
    while s < segment_count
        invariant
            s <= segment_count < 12,
            words@.len() > 0,
            ws == views(words@),
            ids.len() == s,
            forall|i: int| 0 <= i < ids.len() ==> 0 <= #[trigger] ids[i] < words@.len(),
            key@ == join_path(ids.map_values(|j: int| ws[j])),
        decreases segment_count - s,
    {
        if key.len() > 0 {
            key.push(47u8);
        }
        let mut seeded = rng_from_u64(segment_seed);
        let g = geometric_sample(&shapes.segment_choice, &mut seeded);
        let choices: u64 = if g <= u64::MAX - 2 { g + 2 } else { u64::MAX };
        let pick = next_u64(r) % choices;
        let word_id = (hash_pair(segment_seed, pick) as usize) % words.len();
        segment_seed = hash_pair(word_id as u64, segment_seed);
        let w = &words[word_id];
        let mut i: usize = 0;
        let ghost start = key@;
        while i < w.len()
            invariant
                i <= w@.len(),
                key@ == start + w@.subrange(0, i as int),
            decreases w@.len() - i,
        {
            key.push(w[i]);
            i = i + 1;
            assert(key@ =~= start + w@.subrange(0, i as int));
        }
        proof {
            let old_ids = ids;
            ids = ids.push(word_id as int);
            assert(ids.drop_last() =~= old_ids);
            assert(ids.map_values(|j: int| ws[j]).drop_last() =~= old_ids.map_values(|j: int| ws[j]));
            assert(ids.map_values(|j: int| ws[j]).last() == ws[word_id as int]);
            assert(ws[word_id as int] == w@);
            assert(w@.subrange(0, w@.len() as int) =~= w@);
        }
        s = s + 1;
    }
    assert(8 <= ids.len() < 12);
    key
}

/// One structured key of a shape picked uniformly at random. The sequential
/// shape advances `sequential` by one plus a geometric step, wrapping.
fn generate_one(
    r: &mut MainRng,
    sequential: &mut u64,
    words: &Vec<Vec<u8>>,
    path_seed: u64,
    shapes: &TestKeyShapes,
) -> (k: Vec<u8>)
    requires
        words@.len() > 0,
    ensures
        is_test_key(k@, views(words@)),
{
    let kind = uniform_u8(r, 0, 4);
    if kind == 0 {
        let len = uniform_usize(r, 3, 8);
        let mut k: Vec<u8> = Vec::new();
        let mut i: usize = 0;
        while i < len
            invariant
                i <= len,
                k@.len() == i,
            decreases len - i,
        {
            k.push(0u8);
            i = i + 1;
        }
        fill_random_bytes(r, &mut k);
        k
    } else if kind == 1 {
        let len = uniform_usize(r, 20, 60);
        let mut k: Vec<u8> = Vec::new();
        let mut i: usize = 0;
        while i < len
            invariant
                i <= len,
                k@.len() == i,
                is_bit_string(k@),
            decreases len - i,
        {
            let bit = if next_bool(r) { 49u8 } else { 48u8 };
            k.push(bit);
            i = i + 1;
        }
        k
    } else if kind == 2 {
        word_path(r, words, path_seed, shapes)
    } else {
        let step = geometric_sample(&shapes.sequential_step, r);
        *sequential = sequential.wrapping_add(step.wrapping_add(1));
        let k = encode_be64(*sequential);
        k
    }
}

/// Every string of the sequence has one of the four shapes.
pub open spec fn all_test_keys(vs: Seq<Seq<u8>>, words: Seq<Seq<u8>>) -> bool {
    forall|x: Seq<u8>| vs.contains(x) ==> is_test_key(x, words)
}

/// Each key's bytes come strictly before the next key's.
pub open spec fn keys_ascending(keys: Seq<Key>) -> bool {
    forall|i: int, j: int| 0 <= i < j < keys.len() ==> lex_lt((#[trigger] keys[i]).data@, (#[trigger] keys[j]).data@)
}

/// A rearrangement keeps the shapes of its strings.
proof fn lemma_rearranged_shapes(a: Seq<Seq<u8>>, b: Seq<Seq<u8>>, words: Seq<Seq<u8>>)
    requires
        all_test_keys(a, words),
        a.to_multiset() == b.to_multiset(),
    ensures
        all_test_keys(b, words),
{
    a.to_multiset_ensures();
    b.to_multiset_ensures();
    assert forall|x: Seq<u8>| b.contains(x) implies is_test_key(x, words) by {
        assert(b.to_multiset().count(x) > 0);
        assert(a.to_multiset().count(x) > 0);
        assert(a.contains(x));
    }
}

/// `count` distinct keys in strictly ascending byte order, each of one of
/// the four shapes, paths over the English word list.
pub open spec fn structured_keys(keys: Seq<Key>, count: nat) -> bool {
    &&& keys.len() == count
    &&& distinct_keys(keys)
    &&& keys_ascending(keys)
    &&& all_test_keys(key_bytes(keys), word_list(ENGLISH))
}

/// Structured synthetic keys: `count` distinct keys of the four shapes, in
/// strictly ascending byte order. Chunks of at least 16 keys are drawn from
/// one sub-stream each, with a sequential counter of their own; the
/// shortfall left by deduplication is repaired from the primary stream.
pub fn generate_test(count: u32, rng: &mut MainRng, shapes: &TestKeyShapes) -> (r: Result<Vec<Key>, KeySetError>)
    ensures
        r is Err ==> r->Err_0 == KeySetError::RepairExhausted && count > 0,
        r matches Ok(keys) ==> structured_keys(keys@, count as nat),
{
    let path_seed = next_u64(rng);
    let words = english_words();
    assert(views(words@) == word_list(ENGLISH));
    generate_test_with_words(count, rng, shapes, &words, path_seed)
}

/// Structured synthetic keys over a given word list, with the seed that the
/// paths start from.
pub fn generate_test_with_words(
    count: u32,
    rng: &mut MainRng,
    shapes: &TestKeyShapes,
    words: &Vec<Vec<u8>>,
    path_seed: u64,
) -> (r: Result<Vec<Key>, KeySetError>)
    requires
        words@.len() > 0,
    ensures
        r is Err ==> r->Err_0 == KeySetError::RepairExhausted && count > 0,
        r matches Ok(keys) ==> {
            &&& keys@.len() == count
            &&& distinct_keys(keys@)
            &&& keys_ascending(keys@)
            &&& all_test_keys(key_bytes(keys@), views(words@))
        },
{
    let ghost ws = views(words@);
    let total = count as usize;
    let chunk: usize = if total / 32 > 16 { total / 32 } else { 16 };
    let mut out: Vec<Vec<u8>> = Vec::new();
    while out.len() < total
        invariant
            out@.len() <= total,
            chunk > 0,
            words@.len() > 0,
            ws == views(words@),
            all_test_keys(views(out@), ws),
        decreases total - out@.len(),
    {
        let len: usize = if total - out.len() < chunk { total - out.len() } else { chunk };
        let mut sub = next_stream(rng);
        let mut sequential = next_u64(&mut sub);
        let ghost start = out@.len();
        let mut k: usize = 0;
        while k < len
            invariant
                k <= len,
                out@.len() == start + k,
                start + len <= total,
                words@.len() > 0,
                ws == views(words@),
                all_test_keys(views(out@), ws),
            decreases len - k,
        {
            let key = generate_one(&mut sub, &mut sequential, words, path_seed, shapes);
            let ghost prev = views(out@);
            let ghost kv = key@;
            out.push(key);
            proof {
                assert(views(out@) =~= prev.push(kv));
                assert forall|x: Seq<u8>| views(out@).contains(x) implies is_test_key(x, ws) by {
                    let j = choose|j: int| 0 <= j < views(out@).len() && views(out@)[j] == x;
                    if j < prev.len() {
                        assert(prev[j] == x && prev.contains(x));
                    }
                }
            }
            k = k + 1;
        }
    }
    let ghost drawn = views(out@);
    sort_byte_strings(&mut out);
    proof {
        lemma_rearranged_shapes(drawn, views(out@), ws);
    }
    let accepted = dedup_sorted_bytes(&out);
    let mut pending: Vec<Vec<u8>> = Vec::new();
    let mut replacement_sequential = next_u64(rng);
    let mut budget: u64 = REPAIR_DRAW_LIMIT;
    while accepted.len() + pending.len() < total
        invariant
            strictly_ascending(accepted@),
            accepted@.len() + pending@.len() <= total,
            views(pending@).no_duplicates(),
            forall|x: Seq<u8>| views(pending@).contains(x) ==> !views(accepted@).contains(x),
            words@.len() > 0,
            ws == views(words@),
            total == count as usize,
            all_test_keys(views(accepted@), ws),
            all_test_keys(views(pending@), ws),
        decreases budget,
    {
        if budget == 0 {
            return Err(KeySetError::RepairExhausted);
        }
        budget = budget - 1;
        let candidate = generate_one(rng, &mut replacement_sequential, words, path_seed, shapes);
        if !contains_sorted_bytes(&accepted, &candidate) && !contains_bytes(&pending, &candidate) {
            let ghost prev = views(pending@);
            let ghost c = candidate@;
            pending.push(candidate);
            proof {
                assert(views(pending@) =~= prev.push(c));
                assert forall|x: Seq<u8>| views(pending@).contains(x) implies is_test_key(x, ws) by {
                    let j = choose|j: int| 0 <= j < views(pending@).len() && views(pending@)[j] == x;
                    if j < prev.len() {
                        assert(prev[j] == x && prev.contains(x));
                    }
                }
                assert forall|x: Seq<u8>| views(pending@).contains(x) implies !views(accepted@).contains(x) by {
                    let k = choose|k: int| 0 <= k < views(pending@).len() && views(pending@)[k] == x;
                    if k < prev.len() {
                        assert(prev[k] == x);
                        assert(prev.contains(x));
                    }
                }
            }
        }
    }
    let mut all = accepted;
    let ghost acc = views(all@);
    let ghost pend = views(pending@);
    proof {
        lemma_strictly_ascending_distinct(all@);
    }
    all.append(&mut pending);
    proof {
        assert(views(all@) =~= acc + pend);
        lemma_append_distinct(acc, pend);
    }
    proof {
        assert forall|x: Seq<u8>| views(all@).contains(x) implies is_test_key(x, ws) by {
            let j = choose|j: int| 0 <= j < views(all@).len() && views(all@)[j] == x;
            if j < acc.len() {
                assert(acc[j] == x && acc.contains(x));
            } else {
                assert(pend[j - acc.len()] == x && pend.contains(x));
            }
        }
    }
    let ghost before = views(all@);
    sort_byte_strings(&mut all);
    proof {
        lemma_rearranged_distinct(before, views(all@));
        lemma_rearranged_shapes(before, views(all@), ws);
        assert forall|a: int, b: int| 0 <= a < b < all@.len() implies lex_lt(#[trigger] all@[a]@, #[trigger] all@[b]@) by {
            assert(views(all@)[a] == all@[a]@ && views(all@)[b] == all@[b]@);
            assert(!lex_lt(all@[b]@, all@[a]@));
            lemma_lex_total(all@[a]@, all@[b]@);
        }
    }
    let mut keys: Vec<Key> = Vec::new();
    let mut i: usize = 0;
    while i < all.len()
        invariant
            i <= all@.len(),
            keys@.len() == i,
            forall|k: int| 0 <= k < i ==> (#[trigger] keys@[k]).data@ == all@[k]@,
        decreases all@.len() - i,
    {
        keys.push(Key { data: copy_bytes(&all[i]) });
        i = i + 1;
    }
    proof {
        assert forall|a: int, b: int| 0 <= a < keys@.len() && 0 <= b < keys@.len() && a != b
            implies keys@[a].data@ != keys@[b].data@ by {
            assert(views(all@)[a] == all@[a]@ && views(all@)[b] == all@[b]@);
        }
        assert(keys@.len() == count) by {
            assert(all@.len() == total);
        }
        assert(key_bytes(keys@) =~= views(all@));
    }
    Ok(keys)
}

} // verus!
