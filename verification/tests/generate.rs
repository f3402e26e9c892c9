use perfect_hash::hash::{Hash2, RandomHash};
use perfect_hash::{check_keys, generate_hash, grow, try_build, BuildError, PerfectHash};

const BUDGET: usize = 1_000;

fn keyed(words: &[&str]) -> Vec<(Vec<u8>, usize)> {
    words
        .iter()
        .enumerate()
        .map(|(idx, word)| (word.as_bytes().to_vec(), idx))
        .collect()
}

fn generated(keys: &Vec<(Vec<u8>, usize)>) -> PerfectHash {
    match generate_hash(keys, BUDGET) {
        Ok(h) => h,
        Err(e) => panic!("no perfect hash within the budget: {:?}", e),
    }
}

#[test]
fn test_generate_hash_for_small_input() {
    let animals = ["Elephant", "Horse", "Camel", "Python", "Dog", "Cat"];

    let h = generated(&keyed(&animals));
    assert!(animals
        .iter()
        .enumerate()
        .all(|(idx, animal)| h.hash(animal.as_bytes()) == idx));
}

#[test]
fn test_generate_hash_for_us_states() {
    let us_states = [
        "AL", "AK", "AZ", "AR", "CA", "CO", "CT", "DE", "FL", "GA", "HI", "ID", "IL", "IN",
        "IA", "KS", "KY", "LA", "ME", "MD", "MA", "MI", "MN", "MS", "MO", "MT", "NE", "NV",
        "NH", "NJ", "NM", "NY", "NC", "ND", "OH", "OK", "OR", "PA", "RI", "SC", "SD", "TN",
        "TX", "UT", "VT", "VA", "WA", "WV", "WI", "WY",
    ];

    let h = generated(&keyed(&us_states));
    assert!(us_states
        .iter()
        .enumerate()
        .all(|(idx, state)| h.hash(state.as_bytes()) == idx));
}

#[test]
fn small_input_hashes_each_animal_to_its_index() {
    let h = generated(&keyed(&["Elephant", "Horse", "Camel", "Python", "Dog", "Cat"]));
    assert_eq!(h.hash(b"Elephant"), 0);
    assert_eq!(h.hash(b"Horse"), 1);
    assert_eq!(h.hash(b"Camel"), 2);
    assert_eq!(h.hash(b"Python"), 3);
    assert_eq!(h.hash(b"Dog"), 4);
    assert_eq!(h.hash(b"Cat"), 5);
}

#[test]
fn us_states_hash_to_their_listing_order() {
    let us_states = [
        "AL", "AK", "AZ", "AR", "CA", "CO", "CT", "DE", "FL", "GA", "HI", "ID", "IL", "IN",
        "IA", "KS", "KY", "LA", "ME", "MD", "MA", "MI", "MN", "MS", "MO", "MT", "NE", "NV",
        "NH", "NJ", "NM", "NY", "NC", "ND", "OH", "OK", "OR", "PA", "RI", "SC", "SD", "TN",
        "TX", "UT", "VT", "VA", "WA", "WV", "WI", "WY",
    ];
    let h = generated(&keyed(&us_states));
    assert_eq!(h.hash(b"AL"), 0);
    assert_eq!(h.hash(b"CA"), 4);
    assert_eq!(h.hash(b"NV"), 27);
    assert_eq!(h.hash(b"WY"), 49);
}

#[test]
fn generated_hash_passes_its_own_verification() {
    let keys = keyed(&["one", "two", "three", "four", "five", "six", "seven"]);
    let h = generated(&keys);
    assert!(h.verify(&keys));
    let mut wrong = keys.clone();
    wrong[3].1 = 0;
    assert!(!h.verify(&wrong));
}

#[test]
fn table_has_more_entries_than_there_are_keys() {
    let keys = keyed(&["a", "bc", "def", "ghij", "klmno"]);
    let h = generated(&keys);
    assert!(h.table_size() > keys.len());
    assert!(h.table_size() >= 5);
}

#[test]
fn table_is_at_least_one_larger_than_the_greatest_value() {
    let keys = vec![(b"low".to_vec(), 3usize), (b"high".to_vec(), 40usize)];
    let h = generated(&keys);
    assert!(h.table_size() >= 41);
    assert_eq!(h.hash(b"low"), 3);
    assert_eq!(h.hash(b"high"), 40);
}

#[test]
fn salts_reach_as_far_as_the_longest_key_and_stay_below_the_table_size() {
    let keys = keyed(&["x", "yy", "zzzzz", "ww"]);
    let h = generated(&keys);
    let n = h.table_size();
    let (salt1, salt2, table) = h.into_parts();
    assert_eq!(salt1.len(), 5);
    assert_eq!(salt2.len(), 5);
    assert_eq!(table.len(), n);
    assert!(salt1.iter().all(|&s| s < n));
    assert!(salt2.iter().all(|&s| s < n));
    assert!(table.iter().all(|&v| v < n));
}

#[test]
fn keys_may_share_a_value() {
    let keys = vec![
        (b"north".to_vec(), 0usize),
        (b"south".to_vec(), 0usize),
        (b"east".to_vec(), 1usize),
    ];
    let h = generated(&keys);
    assert_eq!(h.hash(b"north"), 0);
    assert_eq!(h.hash(b"south"), 0);
    assert_eq!(h.hash(b"east"), 1);
}

#[test]
fn empty_key_set_succeeds_at_the_first_trial() {
    let keys: Vec<(Vec<u8>, usize)> = Vec::new();
    let h = generate_hash(&keys, 1).unwrap();
    assert_eq!(h.table_size(), 1);
    assert_eq!(h.hash(b"anything"), 0);
    let (salt1, salt2, table) = h.into_parts();
    assert!(salt1.is_empty());
    assert!(salt2.is_empty());
    assert_eq!(table, vec![0]);
}

#[test]
fn key_without_a_nonzero_byte_exhausts_every_budget() {
    // Such a key has the weighted sum 0 under every salt, so its edge is a
    // self-loop at vertex 0 in every trial.
    let empty = vec![(Vec::new(), 0usize), (b"k".to_vec(), 1usize)];
    assert_eq!(generate_hash(&empty, 40).err(), Some(BuildError::Exhausted));
    let zeros = vec![(vec![0u8, 0, 0], 0usize)];
    assert_eq!(generate_hash(&zeros, 40).err(), Some(BuildError::Exhausted));
}

#[test]
fn keys_that_differ_in_trailing_zero_bytes_only_exhaust_every_budget() {
    // They have the same weighted sum under every salt: parallel edges.
    let keys = vec![(b"a".to_vec(), 0usize), (b"a\0".to_vec(), 1usize)];
    assert_eq!(generate_hash(&keys, 40).err(), Some(BuildError::Exhausted));
}

#[test]
fn duplicate_key_is_invalid_input() {
    let keys = vec![
        (b"same".to_vec(), 0usize),
        (b"other".to_vec(), 1usize),
        (b"same".to_vec(), 2usize),
    ];
    assert_eq!(generate_hash(&keys, BUDGET).err(), Some(BuildError::InvalidInput));
}

#[test]
fn value_too_large_for_any_table_is_invalid_input() {
    let keys = vec![(b"k".to_vec(), usize::MAX)];
    assert_eq!(generate_hash(&keys, BUDGET).err(), Some(BuildError::InvalidInput));
}

#[test]
fn invalid_input_is_reported_even_without_a_budget() {
    let keys = vec![(b"k".to_vec(), 0usize), (b"k".to_vec(), 1usize)];
    assert_eq!(generate_hash(&keys, 0).err(), Some(BuildError::InvalidInput));
}

#[test]
fn no_budget_is_exhausted_at_once() {
    let keys = keyed(&["a", "b"]);
    assert_eq!(generate_hash(&keys, 0).err(), Some(BuildError::Exhausted));
    let none: Vec<(Vec<u8>, usize)> = Vec::new();
    assert_eq!(generate_hash(&none, 0).err(), Some(BuildError::Exhausted));
}

#[test]
fn single_key_in_a_table_of_one_entry_cannot_succeed_before_the_table_grows() {
    // In a table of one entry both hashes of the key are 0: a self-loop.
    let keys = vec![(b"only".to_vec(), 0usize)];
    assert_eq!(generate_hash(&keys, 5).err(), Some(BuildError::Exhausted));
    let h = generated(&keys);
    assert!(h.table_size() >= 2);
    assert_eq!(h.hash(b"only"), 0);
}

#[test]
fn check_keys_gives_the_first_table_size() {
    assert_eq!(check_keys(&Vec::new()), Some(1));
    assert_eq!(check_keys(&keyed(&["a", "b", "c"])), Some(3));
    assert_eq!(check_keys(&vec![(b"k".to_vec(), 9usize), (b"l".to_vec(), 2usize)]), Some(10));
    assert_eq!(check_keys(&vec![(b"k".to_vec(), 0usize)]), Some(1));
}

#[test]
fn check_keys_rejects_duplicates_and_the_greatest_integer() {
    assert_eq!(check_keys(&vec![(b"k".to_vec(), 0usize), (b"k".to_vec(), 0usize)]), None);
    assert_eq!(check_keys(&vec![(Vec::new(), 0usize), (Vec::new(), 1usize)]), None);
    assert_eq!(check_keys(&vec![(b"k".to_vec(), usize::MAX)]), None);
    assert_eq!(check_keys(&vec![(b"k".to_vec(), usize::MAX - 1)]), Some(usize::MAX));
    // A key that is the beginning of another is a different key.
    assert_eq!(check_keys(&vec![(b"ab".to_vec(), 0usize), (b"abc".to_vec(), 1usize)]), Some(2));
}

#[test]
fn table_grows_by_a_twentieth_rounded_up_and_by_one_at_least() {
    assert_eq!(grow(0), Some(1));
    assert_eq!(grow(1), Some(2));
    assert_eq!(grow(6), Some(7));
    assert_eq!(grow(19), Some(20));
    assert_eq!(grow(20), Some(21));
    assert_eq!(grow(21), Some(23));
    assert_eq!(grow(40), Some(42));
    assert_eq!(grow(50), Some(53));
    assert_eq!(grow(100), Some(105));
    assert_eq!(grow(101), Some(107));
    assert_eq!(grow(usize::MAX), None);
    assert_eq!(grow(usize::MAX - 1), None);
    assert_eq!(grow(usize::MAX / 21 * 20), Some(usize::MAX / 21 * 21));
}

fn two_keys() -> Vec<(Vec<u8>, usize)> {
    // 'a' is 97 and 'b' is 98.
    vec![(b"a".to_vec(), 0usize), (b"b".to_vec(), 1usize)]
}

#[test]
fn trial_with_given_salts_builds_the_table_of_the_tree() {
    // Under salt [1] the keys point at 97 % 3 = 1 and 98 % 3 = 2, under salt
    // [0] both point at 0: the edges 1-0 of weight 0 and 2-0 of weight 1.
    let f1 = Hash2::with_salt(3, vec![1]).unwrap();
    let f2 = Hash2::with_salt(3, vec![0]).unwrap();
    let h = try_build(&two_keys(), f1, f2).unwrap();
    assert_eq!(h.hash(b"a"), 0);
    assert_eq!(h.hash(b"b"), 1);
    let (salt1, salt2, table) = h.into_parts();
    assert_eq!(salt1, vec![1]);
    assert_eq!(salt2, vec![0]);
    assert_eq!(table, vec![0, 0, 1]);
}

#[test]
fn trial_with_given_salts_fails_on_parallel_edges() {
    // Under salt [2] the keys point at 194 % 3 = 2 and 196 % 3 = 1: the
    // edges 1-2 and 2-1.
    let f1 = Hash2::with_salt(3, vec![1]).unwrap();
    let f2 = Hash2::with_salt(3, vec![2]).unwrap();
    assert!(try_build(&two_keys(), f1, f2).is_none());
}

#[test]
fn trial_with_given_salts_fails_on_a_self_loop() {
    let f1 = Hash2::with_salt(3, vec![1]).unwrap();
    let f2 = Hash2::with_salt(3, vec![1]).unwrap();
    assert!(try_build(&two_keys(), f1, f2).is_none());
}

#[test]
fn trial_draws_the_salt_that_is_missing() {
    let keys = vec![(b"abcd".to_vec(), 0usize)];
    let mut found = None;
    for _ in 0..BUDGET {
        let f1 = Hash2::with_salt(5, vec![4, 3]).unwrap();
        let f2 = Hash2::with_salt(5, vec![2, 1]).unwrap();
        if let Some(h) = try_build(&keys, f1, f2) {
            found = Some(h);
            break;
        }
    }
    let h = found.unwrap();
    assert_eq!(h.hash(b"abcd"), 0);
    let (salt1, salt2, table) = h.into_parts();
    assert_eq!(salt1.len(), 4);
    assert_eq!(salt2.len(), 4);
    assert_eq!(&salt1[..2], &[4, 3]);
    assert_eq!(&salt2[..2], &[2, 1]);
    assert!(salt1.iter().all(|&s| s < 5));
    assert!(salt2.iter().all(|&s| s < 5));
    assert_eq!(table.len(), 5);
}

#[test]
fn trial_keeps_salt_that_is_longer_than_every_key() {
    let f1 = Hash2::with_salt(3, vec![1, 2, 2]).unwrap();
    let f2 = Hash2::with_salt(3, vec![0, 1, 1]).unwrap();
    let h = try_build(&two_keys(), f1, f2).unwrap();
    let (salt1, salt2, table) = h.into_parts();
    assert_eq!(salt1, vec![1, 2, 2]);
    assert_eq!(salt2, vec![0, 1, 1]);
    assert_eq!(table, vec![0, 0, 1]);
}

#[test]
fn fresh_families_have_no_salt() {
    let f = Hash2::new(4);
    assert_eq!(f.limit(), 4);
    assert_eq!(f.into_salt(), Vec::<usize>::new());
}

#[test]
fn check_keys_finds_a_duplicate_among_many_keys() {
    let mut keys: Vec<(Vec<u8>, usize)> = (0..20_000usize)
        .map(|i| (format!("key number {}", i).into_bytes(), i))
        .collect();
    assert_eq!(check_keys(&keys), Some(20_000));
    keys.push((b"key number 17".to_vec(), 20_000));
    assert_eq!(check_keys(&keys), None);
    keys.pop();
    keys.push((b"key number 20000".to_vec(), 20_000));
    assert_eq!(check_keys(&keys), Some(20_001));
}

#[test]
fn check_keys_tells_keys_apart_that_differ_in_one_byte() {
    let keys = vec![
        (vec![0u8, 1], 0usize),
        (vec![1u8, 0], 1usize),
        (vec![0u8], 2usize),
        (vec![0u8, 0], 3usize),
        (Vec::new(), 4usize),
    ];
    assert_eq!(check_keys(&keys), Some(5));
}
