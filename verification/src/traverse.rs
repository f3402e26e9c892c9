//! The bookkeeping behind the labelling traversal.
//!
//! The traversal keeps three things at run time: which vertices it has
//! visited, the labels given so far, and a stack of `(parent, vertex)`
//! pairs still to visit. A `Trace` adds what the proof has to remember
//! about how that state came about, and `inv` says how the two fit
//! together. Each step of the traversal has a lemma here that carries `inv`
//! across it, or shows that a cycle was found.

use vstd::prelude::*;
use crate::forest::{
    Step, backwards, connected, edge_met, flip, hangs, has_cycle, is_cycle, is_forest, is_walk,
    label_across, labelling, least_of_component, lemma_closed_walk_has_cycle,
    lemma_ranked_is_forest, lemma_ranked_is_sparse, lemma_walk_backwards, lemma_walk_concat,
    lemma_walk_push, linked,
};
use crate::layout::Layout;

verus! {

/// What the proof remembers of a traversal under way.
pub struct Trace {
    /// The root of the tree being grown; between trees, the next vertex to
    /// be tried as a root.
    pub root: int,
    /// Number of vertices visited so far.
    pub clock: int,
    /// For a visited vertex, how many were visited before it.
    pub rank: Seq<int>,
    /// For a visited vertex, the entry `(parent, position)` through which it
    /// was reached; a root has a negative parent.
    pub arr: Seq<(int, int)>,
    /// For a visited vertex, the root of its tree.
    pub home: Seq<int>,
    /// For a visited vertex, the walk from the root of its tree to it.
    pub walk: Seq<Seq<Step>>,
    /// The edges through which vertices were reached, each with the vertex
    /// reached.
    pub owner: Map<int, int>,
    /// For each pair on the stack, the entry that put it there; the root's
    /// pair has a negative parent.
    pub sdart: Seq<(int, int)>,
    /// The vertex whose entries are being scanned, or a negative number.
    pub cur: int,
    /// How many entries of `cur` have been scanned.
    pub idx: int,
    /// The vertices not visited yet.
    pub pending: Set<int>,
}

/// The neighbour behind entry `(v, k)` was visited in an earlier tree.
pub open spec fn settled(l: Layout, vis: Seq<bool>, t: Trace, v: int, k: int) -> bool {
    vis[l.nbr(v, k)] && t.home[l.nbr(v, k)] < t.root
}

/// All the sequences have one item per vertex, or per pair on the stack.
pub open spec fn sized(
    l: Layout,
    vis: Seq<bool>,
    vals: Seq<usize>,
    stack: Seq<(Option<usize>, usize)>,
    t: Trace,
) -> bool {
    &&& vis.len() == l.n
    &&& vals.len() == l.n
    &&& t.rank.len() == l.n
    &&& t.arr.len() == l.n
    &&& t.home.len() == l.n
    &&& t.walk.len() == l.n
    &&& t.sdart.len() == stack.len()
    &&& 0 <= t.root <= l.n
    &&& 0 <= t.clock
    &&& t.pending.finite()
    &&& forall|v: int| 0 <= v < l.n ==> (t.pending.contains(v) <==> !#[trigger] vis[v])
    &&& forall|v: int| 0 <= v < t.root ==> #[trigger] vis[v]
}

/// What holds of a visited vertex `v`.
pub open spec fn seen_ok(l: Layout, vis: Seq<bool>, vals: Seq<usize>, t: Trace, v: int) -> bool {
    let (p, k) = t.arr[v];
    &&& 0 <= t.rank[v] < t.clock
    &&& vals[v] < l.n
    &&& 0 <= t.home[v] <= v
    &&& t.home[v] <= t.root
    &&& is_walk(l.edges, t.walk[v], t.home[v], v)
    &&& forall|j: int|
        0 <= j < t.walk[v].len() ==> t.owner.dom().contains((#[trigger] t.walk[v][j]).edge)
    &&& p < 0 ==> t.home[v] == v && vals[v] == 0
    &&& p >= 0 ==> {
        &&& l.has(p, k)
        &&& vis[p]
        &&& t.rank[p] < t.rank[v]
        &&& l.nbr(p, k) == v
        &&& vals[v] == label_across(l.n, l.weight(p, k), vals[p] as int)
        &&& t.home[v] == t.home[p]
        &&& t.home[v] != v
        &&& t.owner.dom().contains(l.ids[p][k])
    }
    &&& t.home[v] < t.root ==> forall|k: int| 0 <= k < l.deg(v) ==> #[trigger] settled(l, vis, t, v, k)
}

/// Every recorded edge is the one through which its vertex was reached.
pub open spec fn owner_ok(l: Layout, vis: Seq<bool>, t: Trace) -> bool {
    forall|e: int| #[trigger]
        t.owner.dom().contains(e) ==> {
            let x = t.owner[e];
            &&& 0 <= x < l.n
            &&& vis[x]
            &&& t.arr[x].0 >= 0
            &&& l.ids[t.arr[x].0][t.arr[x].1] == e
        }
}

/// No pair above position `i` of the stack names the same vertex.
pub open spec fn topmost(stack: Seq<(Option<usize>, usize)>, i: int) -> bool {
    forall|j: int| i < j < stack.len() ==> (#[trigger] stack[j]).1 != stack[i].1
}

/// What holds of the pair at position `i` of the stack.
pub open spec fn pushed_ok(
    l: Layout,
    vis: Seq<bool>,
    vals: Seq<usize>,
    stack: Seq<(Option<usize>, usize)>,
    t: Trace,
    i: int,
) -> bool {
    let v = stack[i].1 as int;
    let (p, k) = t.sdart[i];
    &&& 0 <= v < l.n
    &&& match stack[i].0 {
        None => p < 0 && v == t.root && stack.len() == 1 && !vis[v] && vals[v] == 0 && t.cur < 0,
        Some(q) => {
            &&& q == p
            &&& l.has(p, k)
            &&& vis[p]
            &&& vis[t.root]
            &&& v != t.root
            &&& t.home[p] == t.root
            &&& l.nbr(p, k) == v
            &&& vis[v] ==> t.rank[v] > t.rank[p]
            &&& vis[v] ==> t.arr[v] != (p, k)
            &&& p == t.cur ==> k < t.idx
            &&& (topmost(stack, i) && !vis[v]) ==> vals[v] == label_across(
                l.n,
                l.weight(p, k),
                vals[p] as int,
            )
        },
    }
}

/// No entry put two pairs on the stack.
pub open spec fn distinct_pushes(t: Trace) -> bool {
    forall|i: int, j: int|
        0 <= i < j < t.sdart.len() ==> (#[trigger] t.sdart[i]) != (#[trigger] t.sdart[j])
}

/// Entry `(v, k)` has been dealt with: it leads back to the parent of `v`,
/// or the neighbour was reached through it, or its pair waits on the stack.
pub open spec fn dart_done(l: Layout, vis: Seq<bool>, t: Trace, v: int, k: int) -> bool {
    let u = l.nbr(v, k);
    ||| t.arr[v].0 >= 0 && u == t.arr[v].0
    ||| vis[u] && t.arr[u] == (v, k)
    ||| exists|i: int| 0 <= i < t.sdart.len() && #[trigger] t.sdart[i] == (v, k)
}

/// Every entry of a visited vertex has been dealt with, but for those of
/// `cur` that are still to be scanned.
pub open spec fn darts_ok(l: Layout, vis: Seq<bool>, t: Trace) -> bool {
    forall|v: int, k: int|
        l.has(v, k) && vis[v] && (v == t.cur ==> k < t.idx) ==> #[trigger] dart_done(
            l,
            vis,
            t,
            v,
            k,
        )
}

/// The vertex being scanned is the one visited last, in the current tree.
pub open spec fn cur_ok(l: Layout, vis: Seq<bool>, t: Trace) -> bool {
    t.cur >= 0 ==> {
        &&& t.cur < l.n
        &&& vis[t.cur]
        &&& t.root < l.n
        &&& vis[t.root]
        &&& t.home[t.cur] == t.root
        &&& t.rank[t.cur] == t.clock - 1
        &&& 0 <= t.idx <= l.deg(t.cur)
    }
}

/// The traversal's state and its trace fit together.
pub open spec fn inv(
    l: Layout,
    vis: Seq<bool>,
    vals: Seq<usize>,
    stack: Seq<(Option<usize>, usize)>,
    t: Trace,
) -> bool {
    &&& l.wf()
    &&& sized(l, vis, vals, stack, t)
    &&& forall|v: int| 0 <= v < l.n && vis[v] ==> #[trigger] seen_ok(l, vis, vals, t, v)
    &&& owner_ok(l, vis, t)
    &&& forall|i: int| 0 <= i < stack.len() ==> #[trigger] pushed_ok(l, vis, vals, stack, t, i)
    &&& distinct_pushes(t)
    &&& darts_ok(l, vis, t)
    &&& cur_ok(l, vis, t)
}

/// The state between two trees: nothing waits, and every vertex below `r`
/// is visited, in a tree whose root lies below `r`.
pub open spec fn between(l: Layout, vis: Seq<bool>, vals: Seq<usize>, t: Trace, r: int) -> bool {
    &&& inv(l, vis, vals, Seq::empty(), t)
    &&& t.cur < 0
    &&& t.root == r
    &&& forall|v: int| 0 <= v < l.n && vis[v] ==> (#[trigger] t.home[v]) < r
}

/// The state inside the tree of root `r`, between two visits.
pub open spec fn growing(
    l: Layout,
    vis: Seq<bool>,
    vals: Seq<usize>,
    stack: Seq<(Option<usize>, usize)>,
    t: Trace,
    r: int,
) -> bool {
    &&& inv(l, vis, vals, stack, t)
    &&& t.cur < 0
    &&& t.root == r
    &&& r < l.n
    &&& vis[r] || stack.len() == 1
}

/// An entry that has been dealt with stays so while no vertex is visited
/// and no pair leaves the stack.
pub proof fn lemma_still_done(l: Layout, vis: Seq<bool>, t: Trace, t2: Trace, v: int, k: int)
    requires
        dart_done(l, vis, t, v, k),
        t2.arr == t.arr,
        t2.sdart.len() >= t.sdart.len(),
        forall|i: int| 0 <= i < t.sdart.len() ==> #[trigger] t2.sdart[i] == t.sdart[i],
    ensures
        dart_done(l, vis, t2, v, k),
{
    let u = l.nbr(v, k);
    if t.arr[v].0 >= 0 && u == t.arr[v].0 {
    } else if vis[u] && t.arr[u] == (v, k) {
    } else {
        let i = choose|i: int| 0 <= i < t.sdart.len() && #[trigger] t.sdart[i] == (v, k);
        assert(t2.sdart[i] == (v, k));
    }
}

/// The trace before anything was visited.
pub open spec fn initial(l: Layout) -> Trace {
    Trace {
        root: 0,
        clock: 0,
        rank: Seq::new(l.n as nat, |v: int| 0),
        arr: Seq::new(l.n as nat, |v: int| (-1, -1)),
        home: Seq::new(l.n as nat, |v: int| v),
        walk: Seq::new(l.n as nat, |v: int| Seq::empty()),
        owner: Map::empty(),
        sdart: Seq::empty(),
        cur: -1,
        idx: 0,
        pending: Set::new(|v: int| 0 <= v < l.n),
    }
}

/// Before anything was visited the state is one between trees.
pub proof fn lemma_initial(l: Layout, vis: Seq<bool>, vals: Seq<usize>)
    requires
        l.wf(),
        vis.len() == l.n,
        vals.len() == l.n,
        forall|v: int| 0 <= v < l.n ==> !#[trigger] vis[v],
    ensures
        between(l, vis, vals, initial(l), 0),
{
    let t = initial(l);
    assert(t.pending =~= vstd::set_lib::set_int_range(0, l.n));
    vstd::set_lib::lemma_int_range(0, l.n);
}

/// The trace after a vertex that is visited already was passed over as a
/// root.
pub open spec fn passed(t: Trace) -> Trace {
    Trace { root: t.root + 1, ..t }
}

/// Passing over a visited vertex, or leaving a finished tree, moves on to
/// the next candidate root.
pub proof fn lemma_pass(l: Layout, vis: Seq<bool>, vals: Seq<usize>, t: Trace, r: int)
    requires
        growing(l, vis, vals, Seq::empty(), t, r) || (between(l, vis, vals, t, r) && r < l.n
            && vis[r]),
    ensures
        between(l, vis, vals, passed(t), r + 1),
{
    let t2 = passed(t);
    assert(vis[r]);
    assert forall|v: int| 0 <= v < l.n && vis[v] implies #[trigger] seen_ok(l, vis, vals, t2, v) by {
        assert(seen_ok(l, vis, vals, t, v));
        if t2.home[v] < t2.root {
            assert forall|k: int| 0 <= k < l.deg(v) implies #[trigger] settled(l, vis, t2, v, k) by {
                if t.home[v] < t.root {
                    assert(settled(l, vis, t, v, k));
                } else {
                    assert(dart_done(l, vis, t, v, k));
                    l.lemma_entry(v, k);
                    let u = l.nbr(v, k);
                    assert(vis[u]);
                    assert(seen_ok(l, vis, vals, t, u));
                }
            }
        }
    }
    assert forall|v: int, k: int|
        l.has(v, k) && vis[v] && (v == t2.cur ==> k < t2.idx) implies #[trigger] dart_done(
        l,
        vis,
        t2,
        v,
        k,
    ) by {
        assert(dart_done(l, vis, t, v, k));
        lemma_still_done(l, vis, t, t2, v, k);
    }
    assert forall|v: int| 0 <= v < l.n && vis[v] implies (#[trigger] t2.home[v]) < r + 1 by {
        assert(seen_ok(l, vis, vals, t, v));
    }
}

/// The trace after the pair of an unvisited root was put on the stack.
pub open spec fn planted(t: Trace) -> Trace {
    Trace { sdart: seq![(-1, -1)], ..t }
}

/// Giving an unvisited vertex the label `0` and putting it on the stack as
/// a root starts a tree.
pub proof fn lemma_plant(l: Layout, vis: Seq<bool>, vals: Seq<usize>, t: Trace, r: usize)
    requires
        between(l, vis, vals, t, r as int),
        r < l.n,
        !vis[r as int],
    ensures
        growing(l, vis, vals.update(r as int, 0), seq![(None, r)], planted(t), r as int),
{
    let t2 = planted(t);
    let vals2 = vals.update(r as int, 0);
    let stack2 = seq![(None::<usize>, r)];
    assert forall|v: int| 0 <= v < l.n && vis[v] implies #[trigger] seen_ok(l, vis, vals2, t2, v) by {
        assert(seen_ok(l, vis, vals, t, v));
        if t2.home[v] < t2.root {
            assert forall|k: int| 0 <= k < l.deg(v) implies #[trigger] settled(l, vis, t2, v, k) by {
                assert(settled(l, vis, t, v, k));
            }
        }
    }
    assert forall|v: int, k: int|
        l.has(v, k) && vis[v] && (v == t2.cur ==> k < t2.idx) implies #[trigger] dart_done(
        l,
        vis,
        t2,
        v,
        k,
    ) by {
        assert(dart_done(l, vis, t, v, k));
        lemma_still_done(l, vis, t, t2, v, k);
    }
    assert(pushed_ok(l, vis, vals2, stack2, t2, 0));
}

/// The trace after the topmost pair, which names the unvisited vertex `v`,
/// was taken off the stack and `v` marked as visited.
pub open spec fn entered(l: Layout, t: Trace, v: int) -> Trace {
    let (p, k) = t.sdart.last();
    Trace {
        clock: t.clock + 1,
        rank: t.rank.update(v, t.clock),
        arr: t.arr.update(v, (p, k)),
        home: t.home.update(v, t.root),
        walk: t.walk.update(
            v,
            if p < 0 {
                Seq::empty()
            } else {
                t.walk[p].push(l.step(p, k))
            },
        ),
        owner: if p < 0 {
            t.owner
        } else {
            t.owner.insert(l.ids[p][k], v)
        },
        sdart: t.sdart.drop_last(),
        cur: v,
        idx: 0,
        pending: t.pending.remove(v),
        ..t
    }
}

/// Visiting an unvisited vertex from the top of the stack keeps the state
/// in order, with that vertex now the one to be scanned.
pub proof fn lemma_enter(
    l: Layout,
    vis: Seq<bool>,
    vals: Seq<usize>,
    stack: Seq<(Option<usize>, usize)>,
    t: Trace,
    r: int,
)
    requires
        growing(l, vis, vals, stack, t, r),
        stack.len() > 0,
        !vis[stack.last().1 as int],
    ensures
        inv(
            l,
            vis.update(stack.last().1 as int, true),
            vals,
            stack.drop_last(),
            entered(l, t, stack.last().1 as int),
        ),
        entered(l, t, stack.last().1 as int).pending.len() < t.pending.len(),
        vals[stack.last().1 as int] < l.n,
        stack.last().0 == (if t.sdart.last().0 < 0 {
            None
        } else {
            Some(t.sdart.last().0 as usize)
        }),
{
    let top = stack.len() - 1;
    let v = stack[top].1 as int;
    let (p, k) = t.sdart[top];
    let t2 = entered(l, t, v);
    let vis2 = vis.update(v, true);
    let stack2 = stack.drop_last();
    assert(pushed_ok(l, vis, vals, stack, t, top));
    assert(topmost(stack, top));
    if p >= 0 {
        assert(seen_ok(l, vis, vals, t, p));
        l.lemma_entry(p, k);
        lemma_walk_push(l.edges, t.walk[p], t.root, p, l.step(p, k));
        assert(vals[v] < l.n);
    }
    assert(t.pending.contains(v));
    assert(seen_ok(l, vis2, vals, t2, v)) by {
        assert forall|j: int| 0 <= j < t2.walk[v].len() implies t2.owner.dom().contains(
            (#[trigger] t2.walk[v][j]).edge,
        ) by {
            if j < t.walk[p].len() {
                assert(t2.walk[v][j] == t.walk[p][j]);
            }
        }
    }
    assert forall|x: int| 0 <= x < l.n && vis2[x] implies #[trigger] seen_ok(l, vis2, vals, t2, x) by {
        if x != v {
            assert(seen_ok(l, vis, vals, t, x));
            if t2.home[x] < t2.root {
                assert forall|j: int| 0 <= j < l.deg(x) implies #[trigger] settled(
                    l,
                    vis2,
                    t2,
                    x,
                    j,
                ) by {
                    assert(settled(l, vis, t, x, j));
                    l.lemma_entry(x, j);
                }
            }
        }
    }
    assert(owner_ok(l, vis2, t2)) by {
        assert forall|e: int| #[trigger] t2.owner.dom().contains(e) implies {
            let x = t2.owner[e];
            &&& 0 <= x < l.n
            &&& vis2[x]
            &&& t2.arr[x].0 >= 0
            &&& l.ids[t2.arr[x].0][t2.arr[x].1] == e
        } by {
            if p >= 0 && e == l.ids[p][k] {
            } else {
                assert(t.owner.dom().contains(e));
            }
        }
    }
    assert forall|i: int| 0 <= i < stack2.len() implies #[trigger] pushed_ok(
        l,
        vis2,
        vals,
        stack2,
        t2,
        i,
    ) by {
        assert(pushed_ok(l, vis, vals, stack, t, i));
        assert(t.sdart[i] != t.sdart[top]);
        assert(stack2[i] == stack[i]);
        assert(t2.sdart[i] == t.sdart[i]);
        assert(stack[i].0 is Some);
        assert(seen_ok(l, vis, vals, t, t.sdart[i].0));
        if topmost(stack2, i) && stack2[i].1 != v {
            assert forall|j: int| i < j < stack.len() implies (#[trigger] stack[j]).1
                != stack[i].1 by {
                if j < top {
                    assert(stack2[j] == stack[j]);
                }
            }
        }
    }
    assert(distinct_pushes(t2)) by {
        assert forall|i: int, j: int| 0 <= i < j < t2.sdart.len() implies (#[trigger] t2.sdart[i])
            != (#[trigger] t2.sdart[j]) by {
            assert(t.sdart[i] != t.sdart[j]);
        }
    }
    assert(darts_ok(l, vis2, t2)) by {
        assert forall|x: int, j: int|
            l.has(x, j) && vis2[x] && (x == t2.cur ==> j < t2.idx) implies #[trigger] dart_done(
            l,
            vis2,
            t2,
            x,
            j,
        ) by {
            assert(dart_done(l, vis, t, x, j));
            l.lemma_entry(x, j);
            let u = l.nbr(x, j);
            if t.arr[x].0 >= 0 && u == t.arr[x].0 {
            } else if vis[u] && t.arr[u] == (x, j) {
            } else {
                let i = choose|i: int| 0 <= i < t.sdart.len() && #[trigger] t.sdart[i] == (x, j);
                if i < top {
                    assert(t2.sdart[i] == (x, j));
                }
            }
        }
    }
}

/// When the topmost pair names a vertex that is visited already, the graph
/// holds a cycle, and the scan of that vertex will meet an entry that shows
/// it: the entry at the returned position `.0` leads to a visited
/// neighbour, and if that neighbour is the pair's parent, an earlier entry,
/// at `.1`, leads there too.
pub proof fn lemma_stale(
    l: Layout,
    vis: Seq<bool>,
    vals: Seq<usize>,
    stack: Seq<(Option<usize>, usize)>,
    t: Trace,
    r: int,
) -> (found: (int, int))
    requires
        growing(l, vis, vals, stack, t, r),
        stack.len() > 0,
        vis[stack.last().1 as int],
    ensures
        has_cycle(l.edges),
        stack.last().0 is Some,
        vals[stack.last().1 as int] < l.n,
        l.has(stack.last().1 as int, found.0),
        vis[l.nbr(stack.last().1 as int, found.0)],
        l.nbr(stack.last().1 as int, found.0) == stack.last().0->0 ==> 0 <= found.1 < found.0
            && l.nbr(stack.last().1 as int, found.1) == stack.last().0->0,
{
    let top = stack.len() - 1;
    let v = stack[top].1 as int;
    let (p, k) = t.sdart[top];
    assert(pushed_ok(l, vis, vals, stack, t, top));
    assert(seen_ok(l, vis, vals, t, v));
    assert(seen_ok(l, vis, vals, t, p));
    l.lemma_entry(p, k);
    l.lemma_twin(p, k);
    let e = l.ids[p][k];
    let (tv, tk) = l.twin(p, k);
    assert(tv == v);
    // The vertex lies in the tree under way.
    assert(t.home[v] == t.root) by {
        if t.home[v] < t.root {
            assert(settled(l, vis, t, v, tk));
        }
    }
    // The pair's edge is none of those through which a vertex was reached.
    assert(!t.owner.dom().contains(e)) by {
        if t.owner.dom().contains(e) {
            let x = t.owner[e];
            let (q, j2) = t.arr[x];
            assert(seen_ok(l, vis, vals, t, x));
            if (q, j2) != (p, k) {
                l.lemma_same_edge(p, k, q, j2);
            }
        }
    }
    let out = t.walk[p].push(l.step(p, k));
    lemma_walk_push(l.edges, t.walk[p], t.root, p, l.step(p, k));
    let back = backwards(t.walk[v]);
    lemma_walk_backwards(l.edges, t.walk[v], t.root, v);
    lemma_walk_concat(l.edges, out, back, t.root, v, t.root);
    let round = out + back;
    let at = t.walk[p].len() as int;
    assert(round[at] == l.step(p, k));
    assert forall|j: int| 0 <= j < round.len() && j != at implies (#[trigger] round[j]).edge
        != round[at].edge by {
        if j < at {
            assert(round[j] == t.walk[p][j]);
        } else {
            assert(round[j] == back[j - at - 1]);
            assert(back[j - at - 1].edge == t.walk[v][t.walk[v].len() - 1 - (j - at - 1)].edge);
        }
    }
    lemma_closed_walk_has_cycle(l.edges, round, t.root, at);
    // The entry through which the vertex was reached, seen from the vertex.
    let (came, at_came) = t.arr[v];
    assert(came >= 0);
    l.lemma_twin(came, at_came);
    let (_, t1) = l.twin(came, at_came);
    assert(t1 != tk);
    if came != p {
        (t1, 0)
    } else if t1 < tk {
        (tk, t1)
    } else {
        (t1, tk)
    }
}

/// The trace after one more entry of `cur` was scanned without a push.
pub open spec fn stepped(t: Trace) -> Trace {
    Trace { idx: t.idx + 1, ..t }
}

/// Passing over the entry that leads back to the parent keeps the state in
/// order.
pub proof fn lemma_scan_skip(
    l: Layout,
    vis: Seq<bool>,
    vals: Seq<usize>,
    stack: Seq<(Option<usize>, usize)>,
    t: Trace,
)
    requires
        inv(l, vis, vals, stack, t),
        t.cur >= 0,
        t.idx < l.deg(t.cur),
        t.arr[t.cur].0 >= 0,
        l.nbr(t.cur, t.idx) == t.arr[t.cur].0,
    ensures
        inv(l, vis, vals, stack, stepped(t)),
{
    let t2 = stepped(t);
    assert forall|v: int| 0 <= v < l.n && vis[v] implies #[trigger] seen_ok(l, vis, vals, t2, v) by {
        assert(seen_ok(l, vis, vals, t, v));
        if t2.home[v] < t2.root {
            assert forall|k: int| 0 <= k < l.deg(v) implies #[trigger] settled(l, vis, t2, v, k) by {
                assert(settled(l, vis, t, v, k));
            }
        }
    }
    assert forall|i: int| 0 <= i < stack.len() implies #[trigger] pushed_ok(
        l,
        vis,
        vals,
        stack,
        t2,
        i,
    ) by {
        assert(pushed_ok(l, vis, vals, stack, t, i));
    }
    assert forall|v: int, k: int|
        l.has(v, k) && vis[v] && (v == t2.cur ==> k < t2.idx) implies #[trigger] dart_done(
        l,
        vis,
        t2,
        v,
        k,
    ) by {
        if v == t.cur && k == t.idx {
        } else {
            assert(dart_done(l, vis, t, v, k));
            lemma_still_done(l, vis, t, t2, v, k);
        }
    }
}

/// The trace after the current entry of `cur` put a pair on the stack.
pub open spec fn pushed(t: Trace) -> Trace {
    Trace { idx: t.idx + 1, sdart: t.sdart.push((t.cur, t.idx)), ..t }
}

/// Putting the unvisited neighbour behind the current entry on the stack,
/// with its label, keeps the state in order.
pub proof fn lemma_scan_push(
    l: Layout,
    vis: Seq<bool>,
    vals: Seq<usize>,
    stack: Seq<(Option<usize>, usize)>,
    t: Trace,
    label: usize,
)
    requires
        inv(l, vis, vals, stack, t),
        t.cur >= 0,
        t.idx < l.deg(t.cur),
        !vis[l.nbr(t.cur, t.idx)],
        label == label_across(l.n, l.weight(t.cur, t.idx), vals[t.cur] as int),
    ensures
        inv(
            l,
            vis,
            vals.update(l.nbr(t.cur, t.idx), label),
            stack.push((Some(t.cur as usize), l.adj[t.cur][t.idx].0)),
            pushed(t),
        ),
{
    let v = t.cur;
    let k = t.idx;
    let u = l.nbr(v, k);
    let t2 = pushed(t);
    let vals2 = vals.update(u, label);
    let stack2 = stack.push((Some(v as usize), l.adj[v][k].0));
    l.lemma_entry(v, k);
    assert forall|x: int| 0 <= x < l.n && vis[x] implies #[trigger] seen_ok(l, vis, vals2, t2, x) by {
        assert(seen_ok(l, vis, vals, t, x));
        if t2.home[x] < t2.root {
            assert forall|j: int| 0 <= j < l.deg(x) implies #[trigger] settled(l, vis, t2, x, j) by {
                assert(settled(l, vis, t, x, j));
            }
        }
    }
    let top = stack.len() as int;
    assert forall|i: int| 0 <= i < stack2.len() implies #[trigger] pushed_ok(
        l,
        vis,
        vals2,
        stack2,
        t2,
        i,
    ) by {
        if i < top {
            assert(pushed_ok(l, vis, vals, stack, t, i));
            assert(stack2[i] == stack[i]);
            if topmost(stack2, i) && !vis[stack[i].1 as int] {
                assert(stack2[top].1 != stack2[i].1);
                assert forall|j: int| i < j < stack.len() implies (#[trigger] stack[j]).1
                    != stack[i].1 by {
                    assert(stack2[j] == stack[j]);
                }
            }
        } else {
            assert(seen_ok(l, vis, vals, t, v));
        }
    }
    assert(distinct_pushes(t2)) by {
        assert forall|i: int, j: int| 0 <= i < j < t2.sdart.len() implies (#[trigger] t2.sdart[i])
            != (#[trigger] t2.sdart[j]) by {
            if j < top {
                assert(t.sdart[i] != t.sdart[j]);
            } else {
                assert(pushed_ok(l, vis, vals, stack, t, i));
            }
        }
    }
    assert(darts_ok(l, vis, t2)) by {
        assert forall|x: int, j: int|
            l.has(x, j) && vis[x] && (x == t2.cur ==> j < t2.idx) implies #[trigger] dart_done(
            l,
            vis,
            t2,
            x,
            j,
        ) by {
            if x == v && j == k {
                assert(t2.sdart[top] == (x, j));
            } else {
                assert(dart_done(l, vis, t, x, j));
                lemma_still_done(l, vis, t, t2, x, j);
            }
        }
    }
}

/// When the current entry is not passed over and leads to a visited
/// neighbour, the graph holds a cycle. `earlier` is the position of the
/// entry that was passed over, if one was.
pub proof fn lemma_scan_hit(
    l: Layout,
    vis: Seq<bool>,
    vals: Seq<usize>,
    stack: Seq<(Option<usize>, usize)>,
    t: Trace,
    earlier: int,
)
    requires
        inv(l, vis, vals, stack, t),
        t.cur >= 0,
        t.idx < l.deg(t.cur),
        vis[l.nbr(t.cur, t.idx)],
        t.arr[t.cur].0 >= 0 && l.nbr(t.cur, t.idx) == t.arr[t.cur].0 ==> 0 <= earlier < t.idx
            && l.nbr(t.cur, earlier) == t.arr[t.cur].0,
    ensures
        has_cycle(l.edges),
{
    let v = t.cur;
    let k = t.idx;
    let u = l.nbr(v, k);
    let e = l.ids[v][k];
    l.lemma_entry(v, k);
    l.lemma_twin(v, k);
    assert(seen_ok(l, vis, vals, t, v));
    assert(seen_ok(l, vis, vals, t, u));
    if t.owner.dom().contains(e) {
        let x = t.owner[e];
        let (q, j2) = t.arr[x];
        assert(seen_ok(l, vis, vals, t, x));
        assert(q != v);
        l.lemma_same_edge(v, k, q, j2);
        // The edge is the one through which `v` itself was reached, so the
        // entry passed over earlier belongs to a second edge to the parent.
        assert(x == v && q == u);
        l.lemma_entry(v, earlier);
        let e0 = l.ids[v][earlier];
        assert(e0 != e) by {
            if e0 == e {
                l.lemma_same_edge(v, earlier, v, k);
                l.lemma_twin(v, earlier);
            }
        }
        let c = seq![l.step(v, earlier), flip(l.step(v, k))];
        assert(c[0] == l.step(v, earlier));
        assert(c[1] == flip(l.step(v, k)));
        assert(linked(l.edges, c, 0));
        assert(is_cycle(l.edges, c));
    } else {
        assert(t.home[u] == t.root) by {
            if t.home[u] < t.root {
                assert(settled(l, vis, t, u, l.twin(v, k).1));
            }
        }
        let out = t.walk[v].push(l.step(v, k));
        lemma_walk_push(l.edges, t.walk[v], t.root, v, l.step(v, k));
        let back = backwards(t.walk[u]);
        lemma_walk_backwards(l.edges, t.walk[u], t.root, u);
        lemma_walk_concat(l.edges, out, back, t.root, u, t.root);
        let round = out + back;
        let at = t.walk[v].len() as int;
        assert(round[at] == l.step(v, k));
        assert forall|j: int| 0 <= j < round.len() && j != at implies (#[trigger] round[j]).edge
            != round[at].edge by {
            if j < at {
                assert(round[j] == t.walk[v][j]);
            } else {
                assert(round[j] == back[j - at - 1]);
                assert(back[j - at - 1].edge == t.walk[u][t.walk[u].len() - 1 - (j - at - 1)].edge);
            }
        }
        lemma_closed_walk_has_cycle(l.edges, round, t.root, at);
    }
}

/// The trace after all entries of `cur` were scanned.
pub open spec fn left(t: Trace) -> Trace {
    Trace { cur: -1, ..t }
}

/// When all entries of `cur` are scanned, the state is again one between
/// two visits.
pub proof fn lemma_leave(
    l: Layout,
    vis: Seq<bool>,
    vals: Seq<usize>,
    stack: Seq<(Option<usize>, usize)>,
    t: Trace,
)
    requires
        inv(l, vis, vals, stack, t),
        t.cur >= 0,
        t.idx == l.deg(t.cur),
    ensures
        growing(l, vis, vals, stack, left(t), t.root),
{
    let t2 = left(t);
    assert forall|v: int| 0 <= v < l.n && vis[v] implies #[trigger] seen_ok(l, vis, vals, t2, v) by {
        assert(seen_ok(l, vis, vals, t, v));
        if t2.home[v] < t2.root {
            assert forall|k: int| 0 <= k < l.deg(v) implies #[trigger] settled(l, vis, t2, v, k) by {
                assert(settled(l, vis, t, v, k));
            }
        }
    }
    assert forall|i: int| 0 <= i < stack.len() implies #[trigger] pushed_ok(
        l,
        vis,
        vals,
        stack,
        t2,
        i,
    ) by {
        assert(pushed_ok(l, vis, vals, stack, t, i));
    }
    assert forall|v: int, k: int|
        l.has(v, k) && vis[v] && (v == t2.cur ==> k < t2.idx) implies #[trigger] dart_done(
        l,
        vis,
        t2,
        v,
        k,
    ) by {
        assert(dart_done(l, vis, t, v, k));
        lemma_still_done(l, vis, t, t2, v, k);
    }
}

/// The label across an edge and the label it was computed from add up to
/// the edge's weight.
pub proof fn lemma_label_across(n: int, w: int, x: int)
    requires
        0 <= x < n,
        0 <= w,
    ensures
        0 <= label_across(n, w, x) < n,
        (x + label_across(n, w, x)) % n == w % n,
        (label_across(n, w, x) + x) % n == w % n,
{
    vstd::arithmetic::div_mod::lemma_add_mod_noop_right(x, n + w - x, n);
    vstd::arithmetic::div_mod::lemma_mod_add_multiples_vanish(w, n);
}

/// Once every vertex has been tried as a root, the labels found meet every
/// edge, the graph is a forest, and the least vertex of each component has
/// the label `0`.
pub proof fn lemma_finish(l: Layout, vis: Seq<bool>, vals: Seq<usize>, t: Trace)
    requires
        between(l, vis, vals, t, l.n),
    ensures
        is_forest(l.edges),
        labelling(l.edges, l.n, vals),
        forall|v: int| 0 <= v < l.n && least_of_component(l.edges, v) ==> #[trigger] vals[v] == 0,
        0 < l.n ==> l.edges.len() < l.n,
{
    let up = Seq::new(
        l.n as nat,
        |v: int|
            if t.arr[v].0 >= 0 {
                l.ids[t.arr[v].0][t.arr[v].1]
            } else {
                -1
            },
    );
    assert forall|e: int| 0 <= e < l.edges.len() implies #[trigger] hangs(l.edges, t.rank, up, e)
        && edge_met(l.edges, l.n, vals, e) by {
        let a = l.edges[e].a as int;
        let b = l.edges[e].b as int;
        let w = l.edges[e].w as int;
        let ka = l.slots[e].0;
        let kb = l.slots[e].1;
        l.lemma_edge_entries(e);
        l.lemma_twin(a, ka);
        assert(seen_ok(l, vis, vals, t, a));
        assert(seen_ok(l, vis, vals, t, b));
        assert(dart_done(l, vis, t, a, ka));
        assert(dart_done(l, vis, t, b, kb));
        if t.arr[b] == (a, ka) {
            lemma_label_across(l.n, w, vals[a] as int);
        } else {
            assert(t.arr[a] == (b, kb));
            lemma_label_across(l.n, w, vals[b] as int);
        }
    }
    assert forall|e: int| 0 <= e < l.edges.len() implies (#[trigger] l.edges[e]).a < l.n
        && l.edges[e].b < l.n by {
        assert(l.edge_ok(e));
    }
    assert forall|e: int| 0 <= e < l.edges.len() implies #[trigger] edge_met(l.edges, l.n, vals, e) by {
        assert(hangs(l.edges, t.rank, up, e));
    }
    lemma_ranked_is_forest(l.edges, l.n, t.rank, up);
    if 0 < l.n {
        lemma_ranked_is_sparse(l.edges, l.n, t.rank, up);
    }
    assert forall|v: int| 0 <= v < l.n implies (#[trigger] vals[v]) < l.n by {
        assert(seen_ok(l, vis, vals, t, v));
    }
    assert forall|v: int| 0 <= v < l.n && least_of_component(l.edges, v) implies #[trigger] vals[v]
        == 0 by {
        assert(seen_ok(l, vis, vals, t, v));
        if t.home[v] < v {
            assert(connected(l.edges, t.home[v], v));
        }
    }
}

} // verus!
