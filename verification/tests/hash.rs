use perfect_hash::hash::{Hash1, Hash2, RandomHash};
use perfect_hash::PerfectHash;

#[test]
fn weighted_hash_is_the_sum_of_salt_times_byte() {
    // 3 * 1 + 5 * 2 + 7 * 3 = 34, and 34 % 11 = 1.
    let f = Hash2::with_salt(11, vec![3, 5, 7]).unwrap();
    assert_eq!(f.peek(&[1, 2, 3]), 1);
    // 3 * 255 + 5 * 255 = 2040, and 2040 % 11 = 5.
    assert_eq!(f.peek(&[255, 255]), 5);
    assert_eq!(f.peek(&[]), 0);
}

#[test]
fn weighted_hash_uses_the_salt_again_for_a_key_that_is_longer() {
    // 3 * 1 + 5 * 2 + 7 * 3 + 3 * 4 + 5 * 5 = 71, and 71 % 11 = 5.
    let f = Hash2::with_salt(11, vec![3, 5, 7]).unwrap();
    assert_eq!(f.peek(&[1, 2, 3, 4, 5]), 5);
}

#[test]
fn weighted_hash_without_salt_is_zero() {
    let f = Hash2::new(9);
    assert_eq!(f.peek(b"unseen"), 0);
    assert_eq!(f.peek(b""), 0);
}

#[test]
fn call_with_salt_that_covers_the_key_draws_nothing() {
    let mut f = Hash2::with_salt(11, vec![3, 5, 7]).unwrap();
    assert_eq!(f.call(&[1, 2, 3]), 1);
    assert_eq!(f.call(&[9]), 5);
    assert_eq!(f.into_salt(), vec![3, 5, 7]);
}

#[test]
fn call_draws_salt_up_to_the_length_of_the_key() {
    let mut f = Hash2::new(7);
    let h = f.call(b"abc");
    assert!(h < 7);
    assert_eq!(f.peek(b"abc"), h);
    let salt = f.into_salt();
    assert_eq!(salt.len(), 3);
    assert!(salt.iter().all(|&s| s < 7));
}

#[test]
fn call_keeps_the_salt_drawn_before() {
    let mut f = Hash2::with_salt(100, vec![42, 17]).unwrap();
    let short = f.call(b"hi");
    let long = f.call(b"hello");
    assert!(long < 100);
    assert_eq!(f.call(b"hi"), short);
    assert_eq!(f.peek(b"hello"), long);
    let salt = f.into_salt();
    assert_eq!(salt.len(), 5);
    assert_eq!(&salt[..2], &[42, 17]);
    assert!(salt.iter().all(|&s| s < 100));
}

#[test]
fn drawn_salt_stays_below_a_modulus_of_one() {
    let mut f = Hash2::new(1);
    assert_eq!(f.call(b"some long key"), 0);
    assert_eq!(f.into_salt(), vec![0; 13]);
}

#[test]
fn drawn_salt_takes_more_than_one_value() {
    let mut f = Hash2::new(1_000_000);
    f.call(&[0u8; 64]);
    let salt = f.into_salt();
    assert_eq!(salt.len(), 64);
    assert!(salt.iter().all(|&s| s < 1_000_000));
    assert!(salt.iter().any(|&s| s != salt[0]));
}

#[test]
fn salt_at_or_above_the_modulus_is_refused() {
    assert!(Hash2::with_salt(5, vec![0, 4, 5]).is_none());
    assert!(Hash2::with_salt(0, vec![0]).is_none());
    assert!(Hash2::with_salt(5, vec![0, 4, 4]).is_some());
    assert!(Hash2::with_salt(0, Vec::new()).is_some());
}

#[test]
fn large_salt_and_long_key_do_not_overflow() {
    let n = usize::MAX;
    let big = (n - 1) as u64;
    let f = Hash2::with_salt(n, vec![big, big]).unwrap();
    // (n - 1) * 255 + (n - 1) * 255 is -510 modulo n.
    assert_eq!(f.peek(&[255, 255]) as usize, n - 510);
}

#[test]
fn perfect_hash_and_family_agree_on_the_slot() {
    let f = Hash2::with_salt(13, vec![6, 2, 9, 11]).unwrap();
    let key = b"salt";
    let slot = f.peek(key) as usize;
    let mut table = vec![0usize; 13];
    table[slot] = 4;
    let salt = f.into_salt();
    let h = PerfectHash::new(salt.clone(), salt, table);
    assert_eq!(h.hash(key), 8);
}

#[test]
fn default_hasher_family_has_a_salt_of_eight_letters_and_digits() {
    let salt = Hash1::new(10).into_salt();
    assert_eq!(salt.len(), 8);
    assert!(salt
        .iter()
        .all(|&c| c < 128 && (c as u8 as char).is_ascii_alphanumeric()));
}

#[test]
fn default_hasher_family_draws_different_salts() {
    let first = Hash1::new(10).into_salt();
    let differs = (0..64).any(|_| Hash1::new(10).into_salt() != first);
    assert!(differs);
}

#[test]
fn default_hasher_family_hashes_below_its_modulus_and_repeats_itself() {
    let mut f = Hash1::new(17);
    let h = f.call(b"key");
    assert!(h < 17);
    assert_eq!(f.call(b"key"), h);
    let other = f.call(b"another key");
    assert!(other < 17);
    assert_eq!(f.call(b"key"), h);
    assert_eq!(f.into_salt().len(), 8);
}

#[test]
fn default_hasher_family_with_modulus_one_hashes_to_zero() {
    let mut f = Hash1::new(1);
    assert_eq!(f.call(b"a"), 0);
    assert_eq!(f.call(b""), 0);
}
