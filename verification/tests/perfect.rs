use perfect_hash::{generate_hash, PerfectHash};

#[test]
fn hash_adds_the_two_table_entries_that_the_salts_point_at() {
    // Key [1, 2]: under salt [1, 2] the sum is 5, under [3, 4] it is 11;
    // in a table of 7 entries these point at 5 and 4, and 6 + 3 = 9 is 2.
    let h = PerfectHash::new(vec![1, 2], vec![3, 4], vec![0, 1, 2, 5, 3, 6, 4]);
    assert_eq!(h.hash(&[1, 2]), 2);
    assert_eq!(h.table_size(), 7);
}

#[test]
fn hash_uses_the_salt_again_for_a_key_that_is_longer() {
    // Key [1, 1, 1]: under salt [1, 2] the sum is 1 + 2 + 1 = 4, under
    // [3, 4] it is 3 + 4 + 3 = 10; these point at 4 and 3, and 3 + 5 = 8
    // is 1.
    let h = PerfectHash::new(vec![1, 2], vec![3, 4], vec![0, 1, 2, 5, 3, 6, 4]);
    assert_eq!(h.hash(&[1, 1, 1]), 1);
}

#[test]
fn hash_of_the_empty_key_doubles_the_first_entry() {
    let h = PerfectHash::new(vec![1, 2], vec![3, 4], vec![5, 1, 2, 5, 3, 6, 4]);
    assert_eq!(h.hash(&[]), 3);
}

#[test]
fn hash_without_salt_doubles_the_first_entry() {
    let h = PerfectHash::new(Vec::new(), Vec::new(), vec![2, 9, 9]);
    assert_eq!(h.hash(b"whatever"), 1);
    assert_eq!(h.hash(b""), 1);
}

#[test]
fn hash_with_huge_parts_does_not_overflow() {
    let m = usize::MAX;
    let h = PerfectHash::new(vec![m, m], vec![m, m], vec![m, m, m]);
    let n = 3u128;
    let sum = 2 * 255 * (m as u128);
    let slot = (sum % n) as usize;
    assert!(slot < 3);
    assert_eq!(h.hash(&[255, 255]) as u128, (2 * (m as u128)) % n);
}

#[test]
fn hash_of_any_key_is_below_the_table_size() {
    let keys: Vec<(Vec<u8>, usize)> = vec![
        (b"red".to_vec(), 0),
        (b"green".to_vec(), 1),
        (b"blue".to_vec(), 2),
    ];
    let h = generate_hash(&keys, 1_000).unwrap();
    let n = h.table_size();
    assert!(h.hash(b"") < n);
    assert!(h.hash(b"yellow") < n);
    assert!(h.hash(b"a key much longer than any that the hash was generated for") < n);
    assert!(h.hash(&[255; 300]) < n);
    for b in 0..=255u8 {
        assert!(h.hash(&[b]) < n);
    }
}

#[test]
fn hash_of_the_same_key_is_the_same_every_time() {
    let h = PerfectHash::new(vec![7, 1, 4], vec![2, 2, 8], vec![3, 0, 9, 1, 4, 4, 7, 2, 6, 5, 8]);
    let first = h.hash(b"again");
    for _ in 0..10 {
        assert_eq!(h.hash(b"again"), first);
    }
    assert_eq!(h.clone().hash(b"again"), first);
}

#[test]
fn hash_rebuilt_from_its_parts_hashes_alike() {
    let words = ["alpha", "beta", "gamma", "delta", "epsilon"];
    let keys: Vec<(Vec<u8>, usize)> = words
        .iter()
        .enumerate()
        .map(|(idx, w)| (w.as_bytes().to_vec(), idx))
        .collect();
    let h = generate_hash(&keys, 1_000).unwrap();
    let (salt1, salt2, table) = h.clone().into_parts();
    let rebuilt = PerfectHash::new(salt1, salt2, table);
    for (idx, w) in words.iter().enumerate() {
        assert_eq!(rebuilt.hash(w.as_bytes()), idx);
        assert_eq!(rebuilt.hash(w.as_bytes()), h.hash(w.as_bytes()));
    }
    assert_eq!(rebuilt.hash(b"omega"), h.hash(b"omega"));
    assert_eq!(rebuilt.table_size(), h.table_size());
}

#[test]
fn parts_come_out_as_they_went_in() {
    let h = PerfectHash::new(vec![1, 2], vec![3, 4], vec![5, 6, 7]);
    assert_eq!(h.into_parts(), (vec![1, 2], vec![3, 4], vec![5, 6, 7]));
}

#[test]
fn verify_tells_whether_every_pair_is_hashed_to_its_value() {
    let h = PerfectHash::new(vec![1, 2], vec![3, 4], vec![0, 1, 2, 5, 3, 6, 4]);
    assert!(h.verify(&Vec::new()));
    assert!(h.verify(&vec![(vec![1, 2], 2), (vec![1, 1, 1], 1)]));
    assert!(!h.verify(&vec![(vec![1, 2], 2), (vec![1, 1, 1], 0)]));
    assert!(!h.verify(&vec![(vec![1, 2], 9)]));
}
