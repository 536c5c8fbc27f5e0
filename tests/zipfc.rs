use rand_distr::Geometric;
use std::collections::HashMap;
use std::collections::HashSet;
use zipf::ZipfDistribution;
use zipfc::fill::{fill_u64_single_thread, fill_u64_single_thread_range};
use zipfc::keys::{gen_int_keys, generate_parallel, generate_parallel_u64, load_file_keys, mix_keys, partitioned_ids};
use zipfc::keys::{Key, KeySetError, INT_KEYSPACE_CEILING};
use zipfc::load::{parse_key_set_name, zipfc_load_keys, KeySetName, KeySource};
use zipfc::rng::{create_zipfc_rng, derive_seed, hash_u64, MainRng};
use zipfc::structured::{generate_test, TestKeyShapes};
use zipfc::zipfian::{
    create_zipf_permutation, fill_zipf_single_thread, generate_zipf_indices, RankSampler, ZipfError,
};

fn stream(seed: u64) -> MainRng {
    create_zipfc_rng(seed, 0, b"tests\0")
}

fn shapes() -> TestKeyShapes {
    TestKeyShapes {
        segment_choice: Geometric::new(0.08).unwrap(),
        sequential_step: Geometric::new(0.7).unwrap(),
    }
}

fn bytes_of(keys: &[Key]) -> Vec<Vec<u8>> {
    keys.iter().map(|k| k.data.clone()).collect()
}

fn all_distinct(keys: &[Key]) -> bool {
    let set: HashSet<Vec<u8>> = bytes_of(keys).into_iter().collect();
    set.len() == keys.len()
}

fn be32_value(k: &[u8]) -> u32 {
    u32::from_be_bytes([k[0], k[1], k[2], k[3]])
}

fn corpus(lines: &[&str]) -> Vec<Key> {
    lines.iter().map(|l| Key { data: l.as_bytes().to_vec() }).collect()
}

#[test]
fn fixed_width_keys_are_exact_and_distinct() {
    let mut rng = stream(1);
    let keys = generate_parallel(1000, &mut rng).unwrap();
    assert_eq!(keys.len(), 1000);
    assert!(keys.iter().all(|k| k.data.len() == 4));
    assert!(all_distinct(&keys));
}

#[test]
fn wide_keys_are_eight_bytes_and_distinct() {
    let mut rng = stream(19);
    let keys = generate_parallel_u64(1000, &mut rng).unwrap();
    assert_eq!(keys.len(), 1000);
    assert!(keys.iter().all(|k| k.data.len() == 8));
    assert!(all_distinct(&keys));
    let via_name = zipfc_load_keys(&mut rng, &KeySource::Rng8, 64, 0, 0, &shapes()).unwrap();
    assert!(via_name.iter().all(|k| k.data.len() == 8));
}

#[test]
fn fixed_width_keys_small_request() {
    let mut rng = stream(2);
    let keys = generate_parallel(5, &mut rng).unwrap();
    assert_eq!(keys.len(), 5);
    assert!(all_distinct(&keys));
    let none = generate_parallel(0, &mut rng).unwrap();
    assert!(none.is_empty());
}

#[test]
fn reproducible_streams() {
    let mut a = create_zipfc_rng(42, 3, b"keys\0");
    let mut b = create_zipfc_rng(42, 3, b"keys\0");
    let ka = generate_parallel(500, &mut a).unwrap();
    let kb = generate_parallel(500, &mut b).unwrap();
    assert_eq!(bytes_of(&ka), bytes_of(&kb));
    let ia = generate_zipf_indices(&mut a, 100, &RankSampler::Uniform, 1000).unwrap();
    let ib = generate_zipf_indices(&mut b, 100, &RankSampler::Uniform, 1000).unwrap();
    assert_eq!(ia, ib);
}

#[test]
fn seeds_differ_with_purpose() {
    let s1 = derive_seed(42, 3, b"keys\0");
    let s2 = derive_seed(42, 3, b"keys\0");
    let s3 = derive_seed(42, 3, b"ops\0");
    assert_eq!(s1.len(), 32);
    assert_eq!(s1, s2);
    assert_ne!(s1, s3);
    let mut a = create_zipfc_rng(42, 3, b"keys\0");
    let mut c = create_zipfc_rng(42, 3, b"ops\0");
    let ka = generate_parallel(100, &mut a).unwrap();
    let kc = generate_parallel(100, &mut c).unwrap();
    assert_ne!(bytes_of(&ka), bytes_of(&kc));
}

#[test]
fn density_bounds_the_keyspace() {
    let mut rng = stream(3);
    let keys = gen_int_keys(1000, 10000, &mut rng).unwrap();
    assert_eq!(keys.len(), 1000);
    assert!(all_distinct(&keys));
    let values: Vec<u32> = keys.iter().map(|k| be32_value(&k.data)).collect();
    assert!(values.iter().all(|&v| v < 10000));
    // drawn without replacement from the whole range, not its start
    assert!(values.iter().any(|&v| v >= 5000));
    let mean = values.iter().map(|&v| v as f64).sum::<f64>() / values.len() as f64;
    assert!(mean > 4000.0 && mean < 6000.0);
}

#[test]
fn dense_keys_full_density_is_a_permutation() {
    let mut rng = stream(4);
    let keys = gen_int_keys(50, 50, &mut rng).unwrap();
    let mut values: Vec<u32> = keys.iter().map(|k| be32_value(&k.data)).collect();
    let shuffled = values.clone();
    values.sort();
    assert_eq!(values, (0..50).collect::<Vec<u32>>());
    assert_ne!(shuffled, values);
}

#[test]
fn dense_keys_errors() {
    let mut rng = stream(5);
    assert_eq!(gen_int_keys(10, 9, &mut rng).unwrap_err(), KeySetError::KeyspaceTooSmall);
    assert_eq!(
        gen_int_keys(10, INT_KEYSPACE_CEILING, &mut rng).unwrap_err(),
        KeySetError::KeyspaceTooLarge
    );
}

#[test]
fn partitioned_ids_count_up_per_partition() {
    let mut rng = stream(6);
    let keys = partitioned_ids(100, 4, &mut rng).unwrap();
    assert_eq!(keys.len(), 100);
    assert!(all_distinct(&keys));
    let mut seen: HashMap<u32, Vec<u32>> = HashMap::new();
    for k in &keys {
        assert_eq!(k.data.len(), 8);
        let p = be32_value(&k.data[0..4]);
        let id = be32_value(&k.data[4..8]);
        assert!(p < 4);
        seen.entry(p).or_default().push(id);
    }
    for ids in seen.values() {
        let expected: Vec<u32> = (0..ids.len() as u32).collect();
        assert_eq!(ids, &expected);
        let mut sorted = ids.clone();
        sorted.sort();
        assert_eq!(sorted, expected);
    }
}

#[test]
fn partitioned_ids_need_a_partition() {
    let mut rng = stream(7);
    assert_eq!(partitioned_ids(10, 0, &mut rng).unwrap_err(), KeySetError::NoPartitions);
}

#[test]
fn corpus_sample_is_a_permutation() {
    let mut rng = stream(8);
    let lines = corpus(&["alpha", "beta", "gamma", "delta", "epsilon"]);
    let keys = load_file_keys(5, &mut rng, &lines).unwrap();
    let mut got = bytes_of(&keys);
    got.sort();
    let mut want = bytes_of(&lines);
    want.sort();
    assert_eq!(got, want);
}

#[test]
fn corpus_sample_subset_without_repeats() {
    let mut rng = stream(9);
    let lines = corpus(&["alpha", "beta", "gamma", "delta", "epsilon"]);
    let keys = load_file_keys(3, &mut rng, &lines).unwrap();
    assert_eq!(keys.len(), 3);
    assert!(all_distinct(&keys));
    let all = bytes_of(&lines);
    assert!(bytes_of(&keys).iter().all(|k| all.contains(k)));
}

#[test]
fn corpus_too_short() {
    let mut rng = stream(10);
    let lines = corpus(&["a", "b"]);
    assert_eq!(load_file_keys(3, &mut rng, &lines).unwrap_err(), KeySetError::CorpusTooShort);
}

#[test]
fn mix_has_exact_length() {
    let mut rng = stream(11);
    let urls = corpus(&["u1", "u2", "u3", "u4", "u5", "u6"]);
    let wiki = corpus(&["w1", "w2", "w3", "w4", "w5", "w6"]);
    let keys = mix_keys(22, &mut rng, &urls, &wiki, 100).unwrap();
    assert_eq!(keys.len(), 22);
    assert_eq!(mix_keys(40, &mut rng, &urls, &wiki, 100).unwrap_err(), KeySetError::CorpusTooShort);
    assert_eq!(mix_keys(22, &mut rng, &urls, &wiki, 3).unwrap_err(), KeySetError::KeyspaceTooSmall);
}

#[test]
fn structured_keys_are_distinct_and_sorted() {
    let mut rng = stream(12);
    let keys = generate_test(2000, &mut rng, &shapes()).unwrap();
    assert_eq!(keys.len(), 2000);
    assert!(all_distinct(&keys));
    let b = bytes_of(&keys);
    assert!(b.windows(2).all(|w| w[0] < w[1]));
    assert!(b.iter().any(|k| k.contains(&b'/')));
    assert!(b.iter().any(|k| k.len() >= 20 && k.iter().all(|&c| c == b'0' || c == b'1')));
}

#[test]
fn dispatch_by_name() {
    let mut rng = stream(13);
    let name = parse_key_set_name(&b"partitioned_id".to_vec()).unwrap();
    assert!(matches!(name, KeySetName::PartitionedId));
    let keys = zipfc_load_keys(&mut rng, &KeySource::PartitionedId, 100, 0, 4, &shapes()).unwrap();
    assert_eq!(keys.len(), 100);
    let keys = zipfc_load_keys(&mut rng, &KeySource::Rng4, 100, 0, 0, &shapes()).unwrap();
    assert_eq!(keys.len(), 100);
    let keys = zipfc_load_keys(&mut rng, &KeySource::Int, 100, 1000, 0, &shapes()).unwrap();
    assert_eq!(keys.len(), 100);
    let keys = zipfc_load_keys(&mut rng, &KeySource::Test, 100, 0, 0, &shapes()).unwrap();
    assert_eq!(keys.len(), 100);
}

#[test]
fn dispatch_carries_generator_guarantees() {
    let mut rng = stream(22);
    let ints = zipfc_load_keys(&mut rng, &KeySource::Int, 1000, 10000, 0, &shapes()).unwrap();
    assert_eq!(ints.len(), 1000);
    assert!(ints.iter().all(|k| k.data.len() == 4 && be32_value(&k.data) < 10000));
    assert!(all_distinct(&ints));
    let ids = zipfc_load_keys(&mut rng, &KeySource::PartitionedId, 100, 0, 4, &shapes()).unwrap();
    assert!(ids.iter().all(|k| k.data.len() == 8 && be32_value(&k.data[0..4]) < 4));
    for q in 0..4u32 {
        let got: Vec<u32> = ids
            .iter()
            .filter(|k| be32_value(&k.data[0..4]) == q)
            .map(|k| be32_value(&k.data[4..8]))
            .collect();
        assert_eq!(got, (0..got.len() as u32).collect::<Vec<u32>>());
    }
    let lines = corpus(&["l0", "l1", "l2", "l3", "l4"]);
    let file = zipfc_load_keys(&mut rng, &KeySource::File(corpus(&["l0", "l1", "l2", "l3", "l4"])), 5, 0, 0, &shapes()).unwrap();
    let mut got = bytes_of(&file);
    got.sort();
    assert_eq!(got, bytes_of(&lines));
    let narrow = zipfc_load_keys(&mut rng, &KeySource::Rng4, 50, 0, 0, &shapes()).unwrap();
    assert!(narrow.iter().all(|k| k.data.len() == 4));
    let wide = zipfc_load_keys(&mut rng, &KeySource::Rng8, 50, 0, 0, &shapes()).unwrap();
    assert!(wide.iter().all(|k| k.data.len() == 8));
}

#[test]
fn parse_names() {
    assert!(matches!(parse_key_set_name(&b"rng4".to_vec()), Some(KeySetName::Rng4)));
    assert!(matches!(parse_key_set_name(&b"rng8".to_vec()), Some(KeySetName::Rng8)));
    assert!(matches!(parse_key_set_name(&b"int".to_vec()), Some(KeySetName::Int)));
    assert!(matches!(parse_key_set_name(&b"test".to_vec()), Some(KeySetName::Test)));
    match parse_key_set_name(&b"file:/tmp/words".to_vec()) {
        Some(KeySetName::File(p)) => assert_eq!(p, b"/tmp/words".to_vec()),
        _ => panic!("file name not recognised"),
    }
    match parse_key_set_name(&b"mix:/data".to_vec()) {
        Some(KeySetName::Mix(p)) => assert_eq!(p, b"/data".to_vec()),
        _ => panic!("mix name not recognised"),
    }
    assert!(parse_key_set_name(&b"rng16".to_vec()).is_none());
    assert!(parse_key_set_name(&b"".to_vec()).is_none());
}

#[test]
fn zipf_most_frequent_index_varies() {
    let mut tops = HashSet::new();
    for seed in 0..3u64 {
        let mut rng = stream(100 + seed);
        let dist = ZipfDistribution::new(1000, 1.0).unwrap();
        let idx = generate_zipf_indices(&mut rng, 1000, &RankSampler::Zipf(dist), 1_000_000).unwrap();
        assert_eq!(idx.len(), 1_000_000);
        assert!(idx.iter().all(|&i| i < 1000));
        let mut counts = vec![0u64; 1000];
        for &i in &idx {
            counts[i as usize] += 1;
        }
        let top = (0..1000).max_by_key(|&i| counts[i]).unwrap();
        tops.insert(top);
    }
    let stuck_at_edge = tops.len() == 1 && (tops.contains(&0) || tops.contains(&999));
    assert!(!stuck_at_edge);
}

#[test]
fn uniform_fallback_passes_chi_square() {
    let mut rng = stream(14);
    let n = 100usize;
    let samples = 100_000usize;
    let idx = generate_zipf_indices(&mut rng, n as u32, &RankSampler::Uniform, samples as u64).unwrap();
    let mut counts = vec![0f64; n];
    for &i in &idx {
        counts[i as usize] += 1.0;
    }
    let expected = samples as f64 / n as f64;
    let chi: f64 = counts.iter().map(|c| (c - expected) * (c - expected) / expected).sum();
    // 99.9th percentile of chi-square with 99 degrees of freedom is about 148
    assert!(chi < 148.0, "chi-square {chi}");
}

#[test]
fn empty_key_space() {
    let mut rng = stream(15);
    assert_eq!(generate_zipf_indices(&mut rng, 0, &RankSampler::Uniform, 0).unwrap(), Vec::<u32>::new());
    assert_eq!(
        generate_zipf_indices(&mut rng, 0, &RankSampler::Uniform, 5).unwrap_err(),
        ZipfError::EmptyKeySpace
    );
}

#[test]
fn reusable_handle_samples_through_its_permutation() {
    let mut rng = stream(16);
    let dist = ZipfDistribution::new(50, 0.9).unwrap();
    let handle = create_zipf_permutation(&mut rng, 50, RankSampler::Zipf(dist));
    let mut perm = handle.permutation().clone();
    perm.sort();
    assert_eq!(perm, (0..50).collect::<Vec<u32>>());
    let a = fill_zipf_single_thread(&mut rng, &handle, 10_000).unwrap();
    let b = fill_zipf_single_thread(&mut rng, &handle, 10_000).unwrap();
    assert_eq!(a.len(), 10_000);
    assert!(a.iter().chain(b.iter()).all(|&i| i < 50));
    // the most frequent index is the one at rank 1
    let mut counts = vec![0u32; 50];
    for &i in &a {
        counts[i as usize] += 1;
    }
    let top = (0..50).max_by_key(|&i| counts[i]).unwrap();
    assert_eq!(top as u32, handle.permutation()[0]);
}

#[test]
fn reusable_handle_uniform_fallback() {
    let mut rng = stream(20);
    let handle = create_zipf_permutation(&mut rng, 40, RankSampler::Uniform);
    let idx = fill_zipf_single_thread(&mut rng, &handle, 40_000).unwrap();
    let mut counts = vec![0u32; 40];
    for &i in &idx {
        counts[i as usize] += 1;
    }
    assert!(counts.iter().all(|&c| c > 700 && c < 1300));
    let empty = create_zipf_permutation(&mut rng, 0, RankSampler::Uniform);
    assert_eq!(fill_zipf_single_thread(&mut rng, &empty, 0).unwrap(), Vec::<u32>::new());
    assert_eq!(fill_zipf_single_thread(&mut rng, &empty, 3).unwrap_err(), ZipfError::EmptyKeySpace);
}

#[test]
fn empty_requests_succeed() {
    let mut rng = stream(21);
    assert!(generate_test(0, &mut rng, &shapes()).unwrap().is_empty());
    assert!(generate_parallel_u64(0, &mut rng).unwrap().is_empty());
    let urls = corpus(&["u1"]);
    let keys = mix_keys(3, &mut rng, &urls, &urls, 10).unwrap();
    assert_eq!(keys.len(), 3);
}

#[test]
fn range_fill_is_inclusive() {
    let mut rng = stream(17);
    let mut buf = vec![0u64; 10_000];
    fill_u64_single_thread_range(&mut rng, &mut buf, 10, 20);
    assert_eq!(buf.len(), 10_000);
    assert!(buf.iter().all(|&v| (10..=20).contains(&v)));
    assert!(buf.contains(&10));
    assert!(buf.contains(&20));
}

#[test]
fn plain_fill_overwrites() {
    let mut rng = stream(18);
    let mut buf = vec![0u64; 64];
    fill_u64_single_thread(&mut rng, &mut buf);
    assert_eq!(buf.len(), 64);
    assert!(buf.iter().filter(|&&v| v == 0).count() < 2);
}

#[test]
fn mixing_hash_is_stable() {
    assert_eq!(hash_u64(7), hash_u64(7));
    assert_ne!(hash_u64(7), hash_u64(8));
    assert_ne!(hash_u64(7), 7);
}
