//! The perfect hash itself: two salts and a table, and the lookup that
//! they define.

use vstd::prelude::*;
use crate::hash::{as_ints, lemma_fold_step, lemma_weighted_sum_step, weighted_sum};

verus! {

/// The table entry that `key` points at under `salt`, in a table of `n`
/// entries.
pub open spec fn slot(salt: Seq<usize>, key: Seq<u8>, n: int) -> int {
    weighted_sum(as_ints(salt), key) % n
}

/// What a [`PerfectHash`] stands for: its two salts and its table.
pub struct PerfectHashView {
    pub salt1: Seq<usize>,
    pub salt2: Seq<usize>,
    pub table: Seq<usize>,
}

impl PerfectHashView {
    /// The hash of `key`: the two table entries that its salted hashes
    /// point at, added modulo the size of the table.
    pub open spec fn hash(self, key: Seq<u8>) -> int {
        let n = self.table.len() as int;
        (self.table[slot(self.salt1, key, n)] + self.table[slot(self.salt2, key, n)]) % n
    }

    /// Every key hashes to its value.
    pub open spec fn maps(self, keys: Seq<(Vec<u8>, usize)>) -> bool {
        forall|i: int| 0 <= i < keys.len() ==> self.hash((#[trigger] keys[i]).0@) == keys[i].1
    }
}

/// A perfect hash function for a fixed set of keys. It is made once, by
/// [`generate_hash`] or from exported parts, and never changes.
#[derive(Debug)]
pub struct PerfectHash {
    salt1: Vec<usize>,
    salt2: Vec<usize>,
    graph: Vec<usize>,
}

impl View for PerfectHash {
    type V = PerfectHashView;

    closed spec fn view(&self) -> PerfectHashView {
        PerfectHashView { salt1: self.salt1@, salt2: self.salt2@, table: self.graph@ }
    }
}

impl Clone for PerfectHash {
    fn clone(&self) -> (copy: Self)
        ensures
            copy@ == self@,
    {
        proof {
            use_type_invariant(self);
        }
        let salt1 = self.salt1.clone();
        let salt2 = self.salt2.clone();
        let graph = self.graph.clone();
        assert(salt1@ =~= self.salt1@);
        assert(salt2@ =~= self.salt2@);
        assert(graph@ =~= self.graph@);
        Self { salt1, salt2, graph }
    }
}

/// Sums `salt[i] * key[i]` modulo `n` without leaving `u128`.
fn slot_of(salt: &Vec<usize>, key: &[u8], n: usize) -> (r: usize)
    requires
        n > 0,
    ensures
        r == slot(salt@, key@, n as int),
        r < n,
{
    if salt.len() == 0 {
        assert(as_ints(salt@).len() == 0);
        return 0;
    }
    let m: u128 = n as u128;
    let mut acc: u128 = 0;
    let mut i: usize = 0;
    assert(weighted_sum(as_ints(salt@), key@.take(0)) == 0) by {
        assert(key@.take(0).len() == 0);
    }
    while i < key.len()
        invariant
            i <= key.len(),
            salt.len() > 0,
            m == n,
            m > 0,
            acc == weighted_sum(as_ints(salt@), key@.take(i as int)) % (m as int),
        decreases key.len() - i,
    {
        let s: u128 = salt[i % salt.len()] as u128;
        let b: u128 = key[i] as u128;
        proof {
            assert(s * b <= 0xffff_ffff_ffff_ffff * 255) by (nonlinear_arith)
                requires
                    s <= 0xffff_ffff_ffff_ffff,
                    b <= 255,
            ;
            lemma_weighted_sum_step(as_ints(salt@), key@, i as int);
            lemma_fold_step(
                weighted_sum(as_ints(salt@), key@.take(i as int)),
                acc as int,
                s * b,
                m as int,
            );
        }
        acc = (acc + (s * b) % m) % m;
        i += 1;
    }
    proof {
        assert(key@.take(key.len() as int) =~= key@);
    }
    acc as usize
}

impl PerfectHash {
    /// The two salts have the same length.
    #[verifier::type_invariant]
    spec fn paired(&self) -> bool {
        self.salt1.len() == self.salt2.len()
    }

    /// Puts a perfect hash together from its parts, as [`Self::into_parts`]
    /// hands them out. The two salts have the same length.
    pub fn new(salt1: Vec<usize>, salt2: Vec<usize>, graph: Vec<usize>) -> (h: Self)
        requires
            salt1.len() == salt2.len(),
        ensures
            h@ == (PerfectHashView { salt1: salt1@, salt2: salt2@, table: graph@ }),
    {
        Self { salt1, salt2, graph }
    }

    /// Hands out the two salts and the table, from which [`Self::new`]
    /// makes the same perfect hash again.
    pub fn into_parts(self) -> (parts: (Vec<usize>, Vec<usize>, Vec<usize>))
        ensures
            parts.0@ == self@.salt1,
            parts.1@ == self@.salt2,
            parts.2@ == self@.table,
            parts.0.len() == parts.1.len(),
    {
        proof {
            use_type_invariant(&self);
        }
        (self.salt1, self.salt2, self.graph)
    }

    /// The number of table entries, below which all hashes lie.
    pub fn table_size(&self) -> (n: usize)
        ensures
            n == self@.table.len(),
    {
        self.graph.len()
    }

    /// Hashes `key`. A key of the set that the hash was generated for gets
    /// its value; any other key gets some value below the table size.
    pub fn hash(&self, key: &[u8]) -> (value: usize)
        requires
            self@.table.len() > 0,
        ensures
            value == self@.hash(key@),
            value < self@.table.len(),
    {
        let n = self.graph.len();
        let slot1 = slot_of(&self.salt1, key, n);
        let slot2 = slot_of(&self.salt2, key, n);
        ((self.graph[slot1] as u128 + self.graph[slot2] as u128) % (n as u128)) as usize
    }

    /// Tells whether every key hashes to its value.
    pub fn verify(&self, keys: &Vec<(Vec<u8>, usize)>) -> (all: bool)
        requires
            self@.table.len() > 0,
        ensures
            all == self@.maps(keys@),
    {
        let mut i: usize = 0;
        while i < keys.len()
            invariant
                i <= keys.len(),
                self@.table.len() > 0,
                forall|j: int| 0 <= j < i ==> self@.hash((#[trigger] keys@[j]).0@) == keys@[j].1,
            decreases keys.len() - i,
        {
            if self.hash(keys[i].0.as_slice()) != keys[i].1 {
                return false;
            }
            i += 1;
        }
        true
    }
}

/// Export and import give the same perfect hash: one that [`PerfectHash::new`]
/// makes of the parts that [`PerfectHash::into_parts`] handed out has the
/// view of the one they came from, and so hashes every key alike.
pub proof fn lemma_rebuilt_hashes_alike(
    h: PerfectHash,
    parts: (Vec<usize>, Vec<usize>, Vec<usize>),
    rebuilt: PerfectHash,
    key: Seq<u8>,
)
    requires
        parts.0@ == h@.salt1,
        parts.1@ == h@.salt2,
        parts.2@ == h@.table,
        rebuilt@ == (PerfectHashView { salt1: parts.0@, salt2: parts.1@, table: parts.2@ }),
    ensures
        rebuilt@ == h@,
        rebuilt@.hash(key) == h@.hash(key),
{
}

} // verus!
