//! The search for a perfect hash: trials with fresh salts, in a table
//! that grows while they fail.

use vstd::prelude::*;
use crate::forest::{
    Edge, Step, edge_met, is_cycle, is_forest, labelling, least_of_component,
    lemma_no_edges_is_forest,
};
use crate::graph::Graph;
use crate::hash::{Hash2, RandomHash, as_ints, begins, blank, lemma_blank_sum};
use crate::perfect::{PerfectHash, PerfectHashView, slot};

verus! {

/// How many trials are made at one table size before the table grows.
pub const TRIALS: usize = 5;

/// The graph of a trial: one edge for each key, between the two table
/// entries that the key points at, weighted with the key's value.
pub open spec fn key_edges(
    keys: Seq<(Vec<u8>, usize)>,
    n: int,
    salt1: Seq<usize>,
    salt2: Seq<usize>,
) -> Seq<Edge> {
    Seq::new(
        keys.len(),
        |i: int|
            Edge {
                a: slot(salt1, keys[i].0@, n) as usize,
                b: slot(salt2, keys[i].0@, n) as usize,
                w: keys[i].1,
            },
    )
}

/// The length of the longest key, `0` when there is none.
pub open spec fn longest(keys: Seq<(Vec<u8>, usize)>) -> nat
    decreases keys.len(),
{
    if keys.len() == 0 {
        0
    } else if keys.last().0@.len() > longest(keys.drop_last()) {
        keys.last().0@.len()
    } else {
        longest(keys.drop_last())
    }
}

/// The greatest value, `0` when there is none.
pub open spec fn top_value(keys: Seq<(Vec<u8>, usize)>) -> int
    decreases keys.len(),
{
    if keys.len() == 0 {
        0
    } else if keys.last().1 > top_value(keys.drop_last()) {
        keys.last().1 as int
    } else {
        top_value(keys.drop_last())
    }
}

/// The table size of the first trials: one more than the greatest value,
/// so that every value fits, and `1` when there are no keys.
pub open spec fn base_size(keys: Seq<(Vec<u8>, usize)>) -> int {
    if keys.len() == 0 {
        1
    } else {
        top_value(keys) + 1
    }
}

/// No key comes twice.
pub open spec fn distinct_keys(keys: Seq<(Vec<u8>, usize)>) -> bool {
    forall|i: int, j: int|
        0 <= i < j < keys.len() ==> (#[trigger] keys[i]).0@ != (#[trigger] keys[j]).0@
}

/// The keys can be hashed perfectly: no key comes twice, and a table can
/// be one larger than every value.
pub open spec fn valid_input(keys: Seq<(Vec<u8>, usize)>) -> bool {
    &&& distinct_keys(keys)
    &&& forall|i: int| 0 <= i < keys.len() ==> (#[trigger] keys[i]).1 < usize::MAX
}

/// The table size that follows `n`: a twentieth more, rounded up, and at
/// least one more.
pub open spec fn grown(n: int) -> int {
    if n + 1 >= (21 * n + 19) / 20 {
        n + 1
    } else {
        (21 * n + 19) / 20
    }
}

/// The table size after it grew `steps` times from `n`.
pub open spec fn size_after(n: int, steps: nat) -> int
    decreases steps,
{
    if steps == 0 {
        n
    } else {
        grown(size_after(n, (steps - 1) as nat))
    }
}

/// How often the table has grown before the trial of index `trial`, the
/// first trial having index `0`.
pub open spec fn growths(trial: int) -> nat {
    (trial / (TRIALS as int)) as nat
}

/// What a successful trial has built from the keys and from the salts
/// `given1` and `given2` that the two families started with: the salts
/// were kept and drawn out to the longest key, the graph of the keys under
/// them is a forest, and the table is its labelling.
pub open spec fn built(
    keys: Seq<(Vec<u8>, usize)>,
    given1: Seq<usize>,
    given2: Seq<usize>,
    h: PerfectHashView,
) -> bool {
    let n = h.table.len() as int;
    let edges = key_edges(keys, n, h.salt1, h.salt2);
    &&& n > 0
    &&& begins(h.salt1, given1)
    &&& begins(h.salt2, given2)
    &&& h.salt1.len() == if given1.len() < longest(keys) {
        longest(keys)
    } else {
        given1.len()
    }
    &&& h.salt2.len() == if given2.len() < longest(keys) {
        longest(keys)
    } else {
        given2.len()
    }
    &&& forall|i: int| 0 <= i < h.salt1.len() ==> (#[trigger] h.salt1[i]) < n
    &&& forall|i: int| 0 <= i < h.salt2.len() ==> (#[trigger] h.salt2[i]) < n
    &&& is_forest(edges)
    &&& labelling(edges, n, h.table)
    &&& forall|v: int| 0 <= v < n && least_of_component(edges, v) ==> (#[trigger] h.table[v]) == 0
    &&& keys.len() < n
}

/// No key is longer than the longest.
pub proof fn lemma_longest(keys: Seq<(Vec<u8>, usize)>, i: int)
    requires
        0 <= i < keys.len(),
    ensures
        keys[i].0@.len() <= longest(keys),
    decreases keys.len(),
{
    if i < keys.len() - 1 {
        lemma_longest(keys.drop_last(), i);
    }
}

/// No value is greater than the greatest, which is one of the values.
pub proof fn lemma_top_value(keys: Seq<(Vec<u8>, usize)>, i: int)
    requires
        0 <= i < keys.len(),
    ensures
        keys[i].1 <= top_value(keys),
        exists|j: int| 0 <= j < keys.len() && (#[trigger] keys[j]).1 == top_value(keys),
    decreases keys.len(),
{
    let last = keys.len() - 1;
    let rest = keys.drop_last();
    if keys.len() == 1 {
        assert(keys[0].1 == top_value(keys));
    } else {
        let k = if i < last {
            i
        } else {
            0
        };
        lemma_top_value(rest, k);
        if keys[last].1 > top_value(rest) {
            assert(keys[last].1 == top_value(keys));
        } else {
            let j = choose|j: int| 0 <= j < rest.len() && (#[trigger] rest[j]).1 == top_value(rest);
            assert(keys[j] == rest[j]);
            assert(keys[j].1 == top_value(keys));
        }
    }
}

/// A table only grows.
pub proof fn lemma_size_after(n: int, steps: nat)
    requires
        n > 0,
    ensures
        size_after(n, steps) >= n + steps,
    decreases steps,
{
    if steps > 0 {
        lemma_size_after(n, (steps - 1) as nat);
    }
}

/// A table that labels the graph of the keys hashes every key to its
/// value, as long as the values lie below the table size.
pub proof fn lemma_labelling_maps(keys: Seq<(Vec<u8>, usize)>, h: PerfectHashView)
    requires
        0 < h.table.len() <= usize::MAX,
        labelling(
            key_edges(keys, h.table.len() as int, h.salt1, h.salt2),
            h.table.len() as int,
            h.table,
        ),
        forall|i: int| 0 <= i < keys.len() ==> (#[trigger] keys[i]).1 < h.table.len(),
    ensures
        h.maps(keys),
{
    let n = h.table.len() as int;
    let edges = key_edges(keys, n, h.salt1, h.salt2);
    assert forall|i: int| 0 <= i < keys.len() implies h.hash((#[trigger] keys[i]).0@)
        == keys[i].1 by {
        assert(edge_met(edges, n, h.table, i));
        vstd::arithmetic::div_mod::lemma_small_mod(keys[i].1 as nat, n as nat);
    }
}

/// No salts make a forest of keys among which one is blank: both hashes of
/// that key point at the first table entry, so its edge is a self-loop.
/// Every trial on such keys fails.
pub proof fn lemma_blank_key_is_hopeless(
    keys: Seq<(Vec<u8>, usize)>,
    i: int,
    n: int,
    salt1: Seq<usize>,
    salt2: Seq<usize>,
)
    requires
        0 <= i < keys.len(),
        blank(keys[i].0@),
        n > 0,
    ensures
        !is_forest(key_edges(keys, n, salt1, salt2)),
{
    let edges = key_edges(keys, n, salt1, salt2);
    lemma_blank_sum(as_ints(salt1), keys[i].0@);
    lemma_blank_sum(as_ints(salt2), keys[i].0@);
    let c = seq![Step { edge: i, fwd: true }];
    assert(c[0].edge == i);
    assert(edges[i].a == 0 && edges[i].b == 0);
    assert(is_cycle(edges, c));
}

/// Why no perfect hash was generated.
#[derive(Debug, Clone, Copy, PartialEq, Eq, Structural)]
pub enum BuildError {
    /// A key comes twice, or a value is too large for any table.
    InvalidInput,
    /// No trial within the budget found a forest, or the table could not
    /// grow any further.
    Exhausted,
}

/// Tells whether two byte strings are the same.
fn same_bytes(a: &[u8], b: &[u8]) -> (same: bool)
    ensures
        same == (a@ == b@),
{
    if a.len() != b.len() {
        return false;
    }
    let mut i: usize = 0;
    while i < a.len()
        invariant
            i <= a.len(),
            a.len() == b.len(),
            forall|j: int| 0 <= j < i ==> a@[j] == b@[j],
        decreases a.len() - i,
    {
        if a[i] != b[i] {
            return false;
        }
        i += 1;
    }
    assert(a@ =~= b@);
    true
}

/// The shelf, among `m`, on which `key` is put to be compared with the
/// keys that might be the same.
spec fn shelf_of(key: Seq<u8>, m: int) -> int
    decreases key.len(),
{
    if key.len() == 0 {
        0
    } else {
        (shelf_of(key.drop_last(), m) * 31 + key.last()) % m
    }
}

/// Position `j` of the keys is on the shelf.
spec fn shelved(shelf: Seq<usize>, j: int) -> bool {
    exists|q: int| 0 <= q < shelf.len() && #[trigger] shelf[q] == j
}

/// Finds the shelf of a key.
fn find_shelf(key: &[u8], m: usize) -> (shelf: usize)
    requires
        m > 0,
    ensures
        shelf == shelf_of(key@, m as int),
        shelf < m,
{
    let mut acc: u128 = 0;
    let mut i: usize = 0;
    while i < key.len()
        invariant
            i <= key.len(),
            m > 0,
            acc == shelf_of(key@.take(i as int), m as int),
            acc < m,
        decreases key.len() - i,
    {
        proof {
            assert(key@.take(i + 1).drop_last() =~= key@.take(i as int));
        }
        acc = (acc * 31 + key[i] as u128) % (m as u128);
        i += 1;
    }
    proof {
        assert(key@.take(key.len() as int) =~= key@);
    }
    acc as usize
}

/// Checks the keys and finds the table size of the first trials: `None`
/// when a key comes twice or a value is too large.
///
/// The keys are put on shelves, as many as there are keys, and a key is
/// compared with those that share its shelf only.
pub fn check_keys(keys: &Vec<(Vec<u8>, usize)>) -> (size: Option<usize>)
    ensures
        size is Some <==> valid_input(keys@),
        size matches Some(n) ==> n == base_size(keys@),
{
    let count = keys.len();
    if count == 0 {
        return Some(1);
    }
    let mut shelves: Vec<Vec<usize>> = vec![Vec::new(); count];
    let mut top: usize = 0;
    let mut i: usize = 0;
    while i < count
        invariant
            0 < count == keys.len(),
            i <= count,
            shelves.len() == count,
            valid_input(keys@.take(i as int)),
            top == top_value(keys@.take(i as int)),
            top < usize::MAX,
            forall|b: int, q: int|
                0 <= b < count && 0 <= q < shelves@[b]@.len() ==> (#[trigger] shelves@[b]@[q]) < i,
            forall|j: int|
                0 <= j < i ==> shelved(
                    shelves@[shelf_of((#[trigger] keys@[j]).0@, count as int)]@,
                    j,
                ),
        decreases count - i,
    {
        let ghost seen = keys@.take(i as int);
        let ghost more = keys@.take(i + 1);
        proof {
            assert(more.drop_last() =~= seen);
            assert(more.last() == keys@[i as int]);
        }
        if keys[i].1 == usize::MAX {
            return None;
        }
        let shelf = find_shelf(keys[i].0.as_slice(), count);
        let mut q: usize = 0;
        while q < shelves[shelf].len()
            invariant
                i < count == keys.len(),
                shelves.len() == count,
                shelf < count,
                q <= shelves@[shelf as int]@.len(),
                forall|b: int, q: int|
                    0 <= b < count && 0 <= q < shelves@[b]@.len() ==> (#[trigger] shelves@[b]@[q])
                        < i,
                forall|r: int|
                    0 <= r < q ==> keys@[(#[trigger] shelves@[shelf as int]@[r]) as int].0@
                        != keys@[i as int].0@,
            decreases shelves@[shelf as int]@.len() - q,
        {
            let j = shelves[shelf][q];
            if same_bytes(keys[j].0.as_slice(), keys[i].0.as_slice()) {
                return None;
            }
            q += 1;
        }
        proof {
            assert forall|j: int| 0 <= j < i implies (#[trigger] keys@[j]).0@ != keys@[i as int].0@ by {
                if keys@[j].0@ == keys@[i as int].0@ {
                    assert(shelved(shelves@[shelf as int]@, j));
                }
            }
        }
        let ghost before = shelves@;
        shelves[shelf].push(i);
        proof {
            assert forall|j: int| 0 <= j < i + 1 implies shelved(
                shelves@[shelf_of((#[trigger] keys@[j]).0@, count as int)]@,
                j,
            ) by {
                let b = shelf_of(keys@[j].0@, count as int);
                if j < i {
                    let r = choose|r: int| 0 <= r < before[b]@.len() && #[trigger] before[b]@[r] == j;
                    assert(shelves@[b]@[r] == j);
                } else {
                    assert(shelves@[b]@[before[b]@.len() as int] == j);
                }
            }
        }
        if keys[i].1 > top {
            top = keys[i].1;
        }
        i += 1;
    }
    proof {
        assert(keys@.take(keys.len() as int) =~= keys@);
    }
    Some(top + 1)
}

/// The table size that follows `n`, or `None` when it would not fit.
pub fn grow(n: usize) -> (next: Option<usize>)
    ensures
        next is Some <==> grown(n as int) <= usize::MAX,
        next matches Some(m) ==> m == grown(n as int),
{
    let step: u128 = n as u128 + 1;
    let scaled: u128 = (21 * (n as u128) + 19) / 20;
    let next: u128 = if step >= scaled {
        step
    } else {
        scaled
    };
    if next > usize::MAX as u128 {
        None
    } else {
        Some(next as usize)
    }
}

/// One trial: hashes every key with both families, connects the two
/// hashes by an edge weighted with the key's value, and labels the graph.
///
/// The families draw salt at random where a key is longer than their
/// salt, so the outcome is left open then. With salts that reach as far as
/// the longest key nothing is drawn, and the trial succeeds exactly when
/// the graph of the keys under them is a forest.
pub fn try_build(keys: &Vec<(Vec<u8>, usize)>, f1: Hash2, f2: Hash2) -> (found: Option<PerfectHash>)
    requires
        f1.wf(),
        f2.wf(),
        f1.modulus() > 0,
        f1.modulus() == f2.modulus(),
        f1.salt().len() == f2.salt().len(),
    ensures
        found matches Some(h) ==> {
            &&& h@.table.len() == f1.modulus()
            &&& built(keys@, f1.salt(), f2.salt(), h@)
            &&& (forall|i: int| 0 <= i < keys.len() ==> (#[trigger] keys@[i]).1 < f1.modulus())
                ==> h@.maps(keys@)
        },
        longest(keys@) <= f1.salt().len() ==> (found is Some <==> is_forest(
            key_edges(keys@, f1.modulus() as int, f1.salt(), f2.salt()),
        )),
        longest(keys@) <= f1.salt().len() ==> (found matches Some(h) ==> h@.salt1 == f1.salt()
            && h@.salt2 == f2.salt()),
{
    let n = f1.limit();
    let mut family1 = f1;
    let mut family2 = f2;
    let mut g = Graph::new(n);
    let mut i: usize = 0;
    proof {
        assert(f1.salt().subrange(0, f1.salt().len() as int) =~= f1.salt());
        assert(f2.salt().subrange(0, f2.salt().len() as int) =~= f2.salt());
        assert(g@.edges =~= key_edges(keys@.take(0), n as int, f1.salt(), f2.salt()));
    }
    while i < keys.len()
        invariant
            i <= keys.len(),
            n > 0,
            g.wf(),
            g@.size == n,
            family1.wf(),
            family2.wf(),
            family1.modulus() == n,
            family2.modulus() == n,
            f1.modulus() == n,
            begins(family1.salt(), f1.salt()),
            begins(family2.salt(), f2.salt()),
            family1.salt().len() == if f1.salt().len() < longest(keys@.take(i as int)) {
                longest(keys@.take(i as int))
            } else {
                f1.salt().len()
            },
            family2.salt().len() == if f2.salt().len() < longest(keys@.take(i as int)) {
                longest(keys@.take(i as int))
            } else {
                f2.salt().len()
            },
            g@.edges == key_edges(keys@.take(i as int), n as int, family1.salt(), family2.salt()),
        decreases keys.len() - i,
    {
        let ghost before1 = family1;
        let ghost before2 = family2;
        let ghost seen = keys@.take(i as int);
        let ghost more = keys@.take(i + 1);
        let h1 = family1.call(keys[i].0.as_slice());
        let h2 = family2.call(keys[i].0.as_slice());
        g.connect(h1 as usize, h2 as usize, keys[i].1);
        proof {
            assert(more.drop_last() =~= seen);
            assert(more.last() == keys@[i as int]);
            family1.lemma_salt();
            family2.lemma_salt();
            before1.lemma_salt();
            before2.lemma_salt();
            assert(family1.salt().subrange(0, f1.salt().len() as int) =~= before1.salt().subrange(
                0,
                f1.salt().len() as int,
            ));
            assert(family2.salt().subrange(0, f2.salt().len() as int) =~= before2.salt().subrange(
                0,
                f2.salt().len() as int,
            ));
            let grown_edges = key_edges(more, n as int, family1.salt(), family2.salt());
            assert(g@.edges.len() == grown_edges.len());
            assert forall|j: int| 0 <= j < grown_edges.len() implies g@.edges[j]
                == grown_edges[j] by {
                if j < i {
                    lemma_longest(seen, j);
                    assert(seen[j] == keys@[j]);
                    assert(more[j] == keys@[j]);
                    before1.lemma_value_stays(&family1, keys@[j].0@);
                    before2.lemma_value_stays(&family2, keys@[j].0@);
                }
            }
            assert(g@.edges =~= grown_edges);
        }
        i += 1;
    }
    proof {
        assert(keys@.take(keys.len() as int) =~= keys@);
    }
    match g.assign_vertex_values() {
        Some(table) => {
            let ghost salt1 = family1.salt();
            let ghost salt2 = family2.salt();
            proof {
                family1.lemma_salt();
                family2.lemma_salt();
                assert forall|j: int| 0 <= j < salt1.len() implies (#[trigger] salt1[j]) < n by {
                    assert(family1@.salt[j] < n);
                }
                assert forall|j: int| 0 <= j < salt2.len() implies (#[trigger] salt2[j]) < n by {
                    assert(family2@.salt[j] < n);
                }
            }
            let h = PerfectHash::new(family1.into_salt(), family2.into_salt(), table);
            proof {
                if longest(keys@) <= f1.salt().len() {
                    assert(h@.salt1 =~= f1.salt());
                    assert(h@.salt2 =~= f2.salt());
                }
                if forall|i: int| 0 <= i < keys.len() ==> (#[trigger] keys@[i]).1 < f1.modulus() {
                    lemma_labelling_maps(keys@, h@);
                }
            }
            Some(h)
        },
        None => {
            proof {
                if longest(keys@) <= f1.salt().len() {
                    assert(family1.salt() =~= f1.salt());
                    assert(family2.salt() =~= f2.salt());
                }
            }
            None
        },
    }
}

/// Looks for a perfect hash of the keys, each of which comes with the
/// value it is to hash to, in at most `max_trials` trials.
///
/// The first trials use a table one larger than the greatest value; after
/// every [`TRIALS`] failures the table grows. Each trial draws fresh salts,
/// so whether one succeeds is left to chance: only for an empty key set is
/// the first trial sure to, and with a blank key among the keys none ever
/// does. What is returned, if anything, hashes every key to its value, in
/// a table with more entries than there are keys.
///
/// The budget also bounds the table: it grows by a twentieth after every
/// [`TRIALS`] failures, and the search is given up as exhausted when the
/// next size would not fit in `usize`.
pub fn generate_hash(keys: &Vec<(Vec<u8>, usize)>, max_trials: usize) -> (made: Result<
    PerfectHash,
    BuildError,
>)
    ensures
        made matches Ok(h) ==> {
            &&& valid_input(keys@)
            &&& h@.maps(keys@)
            &&& built(keys@, Seq::empty(), Seq::empty(), h@)
            &&& exists|trial: int|
                0 <= trial < max_trials && h@.table.len() == size_after(
                    base_size(keys@),
                    #[trigger] growths(trial),
                )
            &&& h@.table.len() >= base_size(keys@)
            &&& forall|i: int| 0 <= i < keys.len() ==> !blank(#[trigger] keys@[i].0@)
        },
        made matches Err(e) ==> (e == BuildError::InvalidInput <==> !valid_input(keys@)),
        max_trials == 0 ==> made is Err,
        keys.len() == 0 && max_trials > 0 ==> made is Ok,
{
    let mut n = match check_keys(keys) {
        Some(n) => n,
        None => {
            return Err(BuildError::InvalidInput);
        },
    };
    let ghost base = n as int;
    let mut trial: usize = 0;
    while trial < max_trials
        invariant
            trial <= max_trials,
            valid_input(keys@),
            base == base_size(keys@),
            base > 0,
            n == size_after(base, if trial == 0 {
                0
            } else {
                growths(trial - 1)
            }),
            keys.len() == 0 ==> trial == 0,
        decreases max_trials - trial,
    {
        if trial > 0 && trial % TRIALS == 0 {
            match grow(n) {
                Some(larger) => {
                    n = larger;
                },
                None => {
                    return Err(BuildError::Exhausted);
                },
            }
        }
        proof {
            assert(n == size_after(base, growths(trial as int))) by {
                if trial > 0 && trial % TRIALS == 0 {
                    assert(growths(trial - 1) == growths(trial as int) - 1);
                } else if trial > 0 {
                    assert(growths(trial - 1) == growths(trial as int));
                }
            }
            lemma_size_after(base, growths(trial as int));
        }
        trial += 1;

        let f1 = Hash2::new(n);
        let f2 = Hash2::new(n);
        proof {
            assert(f1.salt() =~= Seq::empty());
            assert(f2.salt() =~= Seq::empty());
        }
        match try_build(keys, f1, f2) {
            Some(h) => {
                proof {
                    assert forall|i: int| 0 <= i < keys.len() implies (#[trigger] keys@[i]).1
                        < n by {
                        lemma_top_value(keys@, i);
                    }
                    assert forall|i: int| 0 <= i < keys.len() implies !blank(
                        #[trigger] keys@[i].0@,
                    ) by {
                        if blank(keys@[i].0@) {
                            lemma_blank_key_is_hopeless(keys@, i, n as int, h@.salt1, h@.salt2);
                        }
                    }
                }
                return Ok(h);
            },
            None => {
                proof {
                    if keys.len() == 0 {
                        lemma_no_edges_is_forest(
                            key_edges(keys@, n as int, f1.salt(), f2.salt()),
                        );
                    }
                }
            },
        }
    }
    Err(BuildError::Exhausted)
}

} // verus!
