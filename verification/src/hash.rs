//! Salted hash families over byte keys.
//!
//! A family is bound to a modulus and hashes every key to a value below
//! it. Its salt is drawn at random; once drawn it stays, so that the hash
//! of a key can be computed again later from the exported salt alone.

use vstd::prelude::*;
use std::collections::hash_map::DefaultHasher;
use std::hash::Hasher;
use vstd::std_specs::hash::DefaultHasherAdditionalSpecFns;
use crate::random::{alphanumeric, is_alphanumeric, uniform_below};

verus! {

/// The sum of `salt[i] * key[i]` over the positions of `key`, where the
/// salt is used again from its start when the key is longer than it. With
/// an empty salt the sum is `0`.
pub open spec fn weighted_sum(salt: Seq<int>, key: Seq<u8>) -> int
    decreases key.len(),
{
    if key.len() == 0 || salt.len() == 0 {
        0
    } else {
        weighted_sum(salt, key.drop_last()) + salt[(key.len() - 1) % (salt.len() as int)]
            * key.last()
    }
}

/// A salt of `u64` as mathematical integers.
pub open spec fn wide(salt: Seq<u64>) -> Seq<int> {
    salt.map_values(|s: u64| s as int)
}

/// A salt of `usize` as mathematical integers.
pub open spec fn as_ints(salt: Seq<usize>) -> Seq<int> {
    salt.map_values(|s: usize| s as int)
}

/// `short` is how `long` begins.
pub open spec fn begins<T>(long: Seq<T>, short: Seq<T>) -> bool {
    short.len() <= long.len() && long.subrange(0, short.len() as int) == short
}

/// Taking one more byte of the key adds one product to the sum.
pub proof fn lemma_weighted_sum_step(salt: Seq<int>, key: Seq<u8>, i: int)
    requires
        0 <= i < key.len(),
        salt.len() > 0,
    ensures
        weighted_sum(salt, key.take(i + 1)) == weighted_sum(salt, key.take(i)) + salt[i % (
        salt.len() as int)] * key[i],
{
    assert(key.take(i + 1).drop_last() =~= key.take(i));
}

/// Two salts that agree on the positions of the key, and reach at least as
/// far as the key, give the same sum.
pub proof fn lemma_weighted_sum_agree(s1: Seq<int>, s2: Seq<int>, key: Seq<u8>)
    requires
        key.len() <= s1.len(),
        key.len() <= s2.len(),
        forall|i: int| 0 <= i < key.len() ==> s1[i] == s2[i],
    ensures
        weighted_sum(s1, key) == weighted_sum(s2, key),
    decreases key.len(),
{
    if key.len() > 0 {
        lemma_weighted_sum_agree(s1, s2, key.drop_last());
        vstd::arithmetic::div_mod::lemma_small_mod((key.len() - 1) as nat, s1.len());
        vstd::arithmetic::div_mod::lemma_small_mod((key.len() - 1) as nat, s2.len());
    }
}

/// The key has no byte but `0`; the empty key is such a key.
pub open spec fn blank(key: Seq<u8>) -> bool {
    forall|i: int| 0 <= i < key.len() ==> key[i] == 0
}

/// A blank key has the weighted sum `0` under every salt.
pub proof fn lemma_blank_sum(salt: Seq<int>, key: Seq<u8>)
    requires
        blank(key),
    ensures
        weighted_sum(salt, key) == 0,
    decreases key.len(),
{
    if key.len() > 0 && salt.len() > 0 {
        lemma_blank_sum(salt, key.drop_last());
        assert(key.last() == 0);
    }
}

/// One step of summing modulo `m`: reducing the running sum and the new
/// product before adding them gives the sum reduced.
pub proof fn lemma_fold_step(sum: int, acc: int, product: int, m: int)
    requires
        m > 0,
        acc == sum % m,
    ensures
        (acc + product % m) % m == (sum + product) % m,
{
    vstd::arithmetic::div_mod::lemma_add_mod_noop(sum, product, m);
    vstd::arithmetic::div_mod::lemma_mod_twice(sum, m);
    vstd::arithmetic::div_mod::lemma_add_mod_noop(acc, product % m, m);
    vstd::arithmetic::div_mod::lemma_mod_twice(product, m);
}

/// A family of hash functions, each picked by a salt drawn at random.
pub trait RandomHash: Sized {
    /// The family's invariant.
    spec fn wf(&self) -> bool;

    /// The hash values lie below this number.
    spec fn modulus(&self) -> nat;

    /// The salt drawn so far, as `into_salt` hands it out.
    spec fn salt(&self) -> Seq<usize>;

    /// The hash of `key` under the salt drawn so far.
    spec fn value(&self, key: Seq<u8>) -> int;

    /// A family with hash values below `n`.
    fn new(n: usize) -> (family: Self)
        ensures
            family.wf(),
            family.modulus() == n,
    ;

    /// Hashes `key`, after drawing more salt where the key needs it. The
    /// salt drawn before stays as it is.
    fn call(&mut self, key: &[u8]) -> (h: u64)
        requires
            old(self).wf(),
            old(self).modulus() > 0,
        ensures
            final(self).wf(),
            final(self).modulus() == old(self).modulus(),
            begins(final(self).salt(), old(self).salt()),
            h == final(self).value(key@),
            h < final(self).modulus(),
    ;

    /// Hands out the salt, from which the hash of any key can be computed
    /// again.
    fn into_salt(self) -> (salt: Vec<usize>)
        requires
            self.wf(),
        ensures
            salt@ == self.salt(),
    ;
}

/// What a [`Hash1`] stands for.
pub struct Hash1View {
    pub modulus: nat,
    pub salt: Seq<u8>,
}

/// The family that feeds its salt, of eight letters and digits, and then
/// the key to the standard library's default hasher.
#[derive(Debug)]
pub struct Hash1 {
    n: usize,
    salt: Vec<u8>,
}

impl View for Hash1 {
    type V = Hash1View;

    closed spec fn view(&self) -> Hash1View {
        Hash1View { modulus: self.n as nat, salt: self.salt@ }
    }
}

/// The length of the salt of a [`Hash1`].
pub const SALT_LEN: usize = 8;


impl RandomHash for Hash1 {
    open spec fn wf(&self) -> bool {
        &&& self@.salt.len() == SALT_LEN
        &&& forall|i: int| 0 <= i < self@.salt.len() ==> is_alphanumeric(#[trigger] self@.salt[i])
    }

    open spec fn modulus(&self) -> nat {
        self@.modulus
    }

    open spec fn salt(&self) -> Seq<usize> {
        self@.salt.map_values(|b: u8| b as usize)
    }

    open spec fn value(&self, key: Seq<u8>) -> int {
        DefaultHasher::spec_finish(seq![self@.salt, key]) as int % (self@.modulus as int)
    }

    fn new(n: usize) -> (family: Self) {
        let mut salt: Vec<u8> = Vec::new();
        while salt.len() < SALT_LEN
            invariant
                salt.len() <= SALT_LEN,
                forall|i: int| 0 <= i < salt.len() ==> is_alphanumeric(#[trigger] salt@[i]),
            decreases SALT_LEN - salt.len(),
        {
            salt.push(alphanumeric());
        }
        Self { n, salt }
    }

    fn call(&mut self, key: &[u8]) -> (h: u64)
        ensures
            final(self)@ == old(self)@,
    {
        let mut hasher = DefaultHasher::new();
        hasher.write(self.salt.as_slice());
        hasher.write(key);
        proof {
            assert(hasher@ =~= seq![self@.salt, key@]);
            assert(self.salt() =~= self.salt().subrange(0, self.salt().len() as int));
        }
        hasher.finish() % (self.n as u64)
    }

    fn into_salt(self) -> (salt: Vec<usize>) {
        let mut salt: Vec<usize> = Vec::new();
        let mut i: usize = 0;
        while i < self.salt.len()
            invariant
                i <= self.salt.len(),
                salt.len() == i,
                forall|j: int| 0 <= j < i ==> salt@[j] == self.salt@[j] as usize,
            decreases self.salt.len() - i,
        {
            salt.push(self.salt[i] as usize);
            i += 1;
        }
        proof {
            assert(salt@ =~= self.salt());
        }
        salt
    }
}

/// What a [`Hash2`] stands for: its modulus and the salt drawn so far.
pub struct Hash2View {
    pub modulus: nat,
    pub salt: Seq<int>,
}

/// The family that weights the bytes of the key with its salt: the hash of
/// a key is [`weighted_sum`] modulo the family's modulus. The salt grows to
/// the length of the longest key hashed so far.
#[derive(Debug)]
pub struct Hash2 {
    n: usize,
    salt: Vec<u64>,
}

impl View for Hash2 {
    type V = Hash2View;

    closed spec fn view(&self) -> Hash2View {
        Hash2View { modulus: self.n as nat, salt: wide(self.salt@) }
    }
}

/// Sums `salt[i] * key[i]` modulo `n` without leaving `u128`.
fn fold(salt: &Vec<u64>, key: &[u8], n: usize) -> (r: u64)
    requires
        n > 0,
    ensures
        r == weighted_sum(wide(salt@), key@) % (n as int),
        r < n,
{
    if salt.len() == 0 {
        assert(wide(salt@).len() == 0);
        return 0;
    }
    let m: u128 = n as u128;
    let mut acc: u128 = 0;
    let mut i: usize = 0;
    while i < key.len()
        invariant
            i <= key.len(),
            salt.len() > 0,
            m == n,
            m > 0,
            acc == weighted_sum(wide(salt@), key@.take(i as int)) % (m as int),
        decreases key.len() - i,
    {
        let s: u128 = salt[i % salt.len()] as u128;
        let b: u128 = key[i] as u128;
        proof {
            assert(s * b <= 0xffff_ffff_ffff_ffff * 255) by (nonlinear_arith)
                requires
                    s <= 0xffff_ffff_ffff_ffff,
                    b <= 255,
            ;
            lemma_weighted_sum_step(wide(salt@), key@, i as int);
            lemma_fold_step(
                weighted_sum(wide(salt@), key@.take(i as int)),
                acc as int,
                s * b,
                m as int,
            );
        }
        acc = (acc + (s * b) % m) % m;
        i += 1;
    }
    proof {
        assert(key@.take(key.len() as int) =~= key@);
    }
    acc as u64
}

impl Hash2 {
    /// A family with the given salt, if every value of the salt lies below
    /// `n`.
    pub fn with_salt(n: usize, salt: Vec<u64>) -> (family: Option<Self>)
        ensures
            family is Some <==> forall|i: int| 0 <= i < salt.len() ==> salt@[i] < n,
            family matches Some(f) ==> f.wf() && f@ == (Hash2View {
                modulus: n as nat,
                salt: wide(salt@),
            }),
    {
        let mut i: usize = 0;
        while i < salt.len()
            invariant
                i <= salt.len(),
                forall|j: int| 0 <= j < i ==> salt@[j] < n,
            decreases salt.len() - i,
        {
            if salt[i] >= n as u64 {
                return None;
            }
            i += 1;
        }
        let family = Self { n, salt };
        proof {
            assert forall|j: int| 0 <= j < family@.salt.len() implies 0 <= (
            #[trigger] family@.salt[j]) < family@.modulus by {
                assert(salt@[j] < n);
            }
        }
        Some(family)
    }

    /// The number below which all hash values lie.
    pub fn limit(&self) -> (n: usize)
        ensures
            n == self.modulus(),
    {
        self.n
    }

    /// The exported salt holds the integers of the view.
    pub proof fn lemma_salt(&self)
        requires
            self.wf(),
        ensures
            as_ints(self.salt()) == self@.salt,
    {
        assert(as_ints(self.salt()) =~= self@.salt);
    }

    /// The hash of `key` under the salt drawn so far; no salt is drawn.
    pub fn peek(&self, key: &[u8]) -> (h: u64)
        requires
            self.modulus() > 0,
        ensures
            h == self.value(key@),
            h < self.modulus(),
    {
        fold(&self.salt, key, self.n)
    }

    /// Salt that was drawn stays: the hash of a key that the salt covered
    /// before more was drawn is what it was.
    pub proof fn lemma_value_stays(&self, later: &Self, key: Seq<u8>)
        requires
            begins(later@.salt, self@.salt),
            later@.modulus == self@.modulus,
            key.len() <= self@.salt.len(),
        ensures
            later.value(key) == self.value(key),
    {
        assert forall|i: int| 0 <= i < key.len() implies self@.salt[i] == later@.salt[i] by {
            assert(later@.salt.subrange(0, self@.salt.len() as int)[i] == later@.salt[i]);
        }
        lemma_weighted_sum_agree(self@.salt, later@.salt, key);
    }
}

impl RandomHash for Hash2 {
    open spec fn wf(&self) -> bool {
        &&& self@.modulus <= usize::MAX
        &&& forall|i: int|
            0 <= i < self@.salt.len() ==> 0 <= (#[trigger] self@.salt[i]) < self@.modulus
    }

    open spec fn modulus(&self) -> nat {
        self@.modulus
    }

    open spec fn salt(&self) -> Seq<usize> {
        self@.salt.map_values(|s: int| s as usize)
    }

    open spec fn value(&self, key: Seq<u8>) -> int {
        weighted_sum(self@.salt, key) % (self@.modulus as int)
    }

    fn new(n: usize) -> (family: Self)
        ensures
            family@ == (Hash2View { modulus: n as nat, salt: Seq::empty() }),
    {
        let family = Self { n, salt: Vec::new() };
        assert(family@.salt =~= Seq::empty());
        family
    }

    fn call(&mut self, key: &[u8]) -> (h: u64)
        ensures
            begins(final(self)@.salt, old(self)@.salt),
            final(self)@.salt.len() == if old(self)@.salt.len() < key@.len() {
                key@.len()
            } else {
                old(self)@.salt.len()
            },
    {
        assert forall|i: int| 0 <= i < self.salt.len() implies (#[trigger] self.salt@[i])
            < self.n by {
            assert(self@.salt[i] < self@.modulus);
        }
        if self.salt.len() < key.len() {
            assert(self.salt@.subrange(0, self.salt@.len() as int) =~= self.salt@);
            while self.salt.len() < key.len()
                invariant
                    self.n == old(self).n,
                    self.n > 0,
                    old(self).salt.len() <= self.salt.len() <= key.len(),
                    begins(self.salt@, old(self).salt@),
                    forall|i: int| 0 <= i < self.salt.len() ==> (#[trigger] self.salt@[i]) < self.n,
                decreases key.len() - self.salt.len(),
            {
                let ghost before = self.salt@;
                self.salt.push(uniform_below(self.n as u64));
                proof {
                    assert(self.salt@.subrange(0, old(self).salt.len() as int) =~= before.subrange(
                        0,
                        old(self).salt.len() as int,
                    ));
                }
            }
        }
        proof {
            assert(self.salt@.subrange(0, old(self).salt.len() as int) =~= old(self).salt@);
            assert forall|i: int| 0 <= i < old(self).salt@.len() implies self.salt@[i] == old(
                self,
            ).salt@[i] by {
                assert(self.salt@.subrange(0, old(self).salt.len() as int)[i] == self.salt@[i]);
            }
            assert(self@.salt.subrange(0, old(self)@.salt.len() as int) =~= old(self)@.salt);
            assert(self.salt().subrange(0, old(self).salt().len() as int) =~= old(self).salt());
            assert forall|i: int| 0 <= i < self@.salt.len() implies 0 <= (#[trigger] self@.salt[i])
                < self@.modulus by {
                assert(self.salt@[i] < self.n);
            }
        }
        self.peek(key)
    }

    fn into_salt(self) -> (salt: Vec<usize>)
        ensures
            as_ints(salt@) == self@.salt,
    {
        let mut salt: Vec<usize> = Vec::new();
        let mut i: usize = 0;
        while i < self.salt.len()
            invariant
                self.wf(),
                i <= self.salt.len(),
                salt.len() == i,
                forall|j: int| 0 <= j < i ==> salt@[j] == self.salt@[j],
            decreases self.salt.len() - i,
        {
            assert(self@.salt[i as int] < self@.modulus);
            salt.push(self.salt[i] as usize);
            i += 1;
        }
        proof {
            assert(salt@ =~= self.salt());
            assert(as_ints(salt@) =~= self@.salt);
        }
        salt
    }
}

} // verus!
