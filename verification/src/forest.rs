//! Walks, cycles and forests in an undirected multigraph given as a list of
//! weighted edges.
//!
//! Everything here is ghost code: the definitions that the contracts of
//! [`crate::graph::Graph`] speak of, and what is proved of them.

use vstd::prelude::*;

verus! {

/// An undirected edge between the vertices `a` and `b` that carries the
/// weight `w`. A self-loop has `a == b`; two edges with the same endpoints
/// are parallel edges.
pub struct Edge {
    pub a: usize,
    pub b: usize,
    pub w: usize,
}

/// One traversal of an edge: `edge` is the edge's index in the edge list,
/// and `fwd` says whether it is walked from `a` to `b` or from `b` to `a`.
pub struct Step {
    pub edge: int,
    pub fwd: bool,
}

/// The vertex a step leaves.
pub open spec fn step_src(edges: Seq<Edge>, s: Step) -> int {
    if s.fwd {
        edges[s.edge].a as int
    } else {
        edges[s.edge].b as int
    }
}

/// The vertex a step arrives at.
pub open spec fn step_dst(edges: Seq<Edge>, s: Step) -> int {
    if s.fwd {
        edges[s.edge].b as int
    } else {
        edges[s.edge].a as int
    }
}

/// Step `i` of `s` arrives where step `i + 1` leaves.
pub open spec fn linked(edges: Seq<Edge>, s: Seq<Step>, i: int) -> bool {
    step_dst(edges, s[i]) == step_src(edges, s[i + 1])
}

/// `s` is a walk from `from` to `to`: every step uses an edge of the list,
/// consecutive steps meet, and the ends are as named. The empty walk stays
/// where it is.
pub open spec fn is_walk(edges: Seq<Edge>, s: Seq<Step>, from: int, to: int) -> bool {
    &&& forall|i: int| 0 <= i < s.len() ==> 0 <= (#[trigger] s[i]).edge < edges.len()
    &&& s.len() == 0 ==> from == to
    &&& s.len() > 0 ==> step_src(edges, s[0]) == from && step_dst(edges, s[s.len() - 1]) == to
    &&& forall|i: int| 0 <= i < s.len() - 1 ==> #[trigger] linked(edges, s, i)
}

/// No edge is used twice in `s`, in either direction.
pub open spec fn distinct_edges(s: Seq<Step>) -> bool {
    forall|i: int, j: int| 0 <= i < j < s.len() ==> (#[trigger] s[i]).edge != (#[trigger] s[j]).edge
}

/// `c` is a cycle: a closed walk of at least one step that uses no edge
/// twice. A self-loop is a cycle of one step, a pair of parallel edges a
/// cycle of two.
pub open spec fn is_cycle(edges: Seq<Edge>, c: Seq<Step>) -> bool {
    &&& c.len() > 0
    &&& is_walk(edges, c, step_src(edges, c[0]), step_src(edges, c[0]))
    &&& distinct_edges(c)
}

/// The edge list holds a cycle.
pub open spec fn has_cycle(edges: Seq<Edge>) -> bool {
    exists|c: Seq<Step>| is_cycle(edges, c)
}

/// The edge list is a forest: it holds no cycle, hence no self-loop and no
/// parallel edges either.
pub open spec fn is_forest(edges: Seq<Edge>) -> bool {
    !has_cycle(edges)
}

/// Some walk leads from `a` to `b`.
pub open spec fn connected(edges: Seq<Edge>, a: int, b: int) -> bool {
    exists|s: Seq<Step>| is_walk(edges, s, a, b)
}

/// `v` is the vertex of least index in its connected component.
pub open spec fn least_of_component(edges: Seq<Edge>, v: int) -> bool {
    forall|u: int| 0 <= u < v ==> !#[trigger] connected(edges, u, v)
}

/// The label that the far end of an edge of weight `w` gets when the near
/// end is labelled `x`, in a table of `n` labels.
pub open spec fn label_across(n: int, w: int, x: int) -> int {
    (n + w - x) % n
}

/// The labels at the two ends of edge `e` add up to its weight, modulo the
/// number of vertices.
pub open spec fn edge_met(edges: Seq<Edge>, n: int, labels: Seq<usize>, e: int) -> bool {
    (labels[edges[e].a as int] + labels[edges[e].b as int]) % n == edges[e].w as int % n
}

/// `labels` is a labelling of the `n` vertices under which every edge is met.
pub open spec fn labelling(edges: Seq<Edge>, n: int, labels: Seq<usize>) -> bool {
    &&& labels.len() == n
    &&& forall|v: int| 0 <= v < n ==> (#[trigger] labels[v]) < n
    &&& forall|e: int| 0 <= e < edges.len() ==> #[trigger] edge_met(edges, n, labels, e)
}

/// The same step, walked the other way.
pub open spec fn flip(s: Step) -> Step {
    Step { edge: s.edge, fwd: !s.fwd }
}

/// The walk `s` walked backwards.
pub open spec fn backwards(s: Seq<Step>) -> Seq<Step> {
    Seq::new(s.len(), |i: int| flip(s[s.len() - 1 - i]))
}

/// The vertex that the walk `s`, which ends at `to`, has reached before its
/// step `i`; for `i == s.len()` that is `to`.
pub open spec fn walk_at(edges: Seq<Edge>, s: Seq<Step>, to: int, i: int) -> int {
    if i < s.len() {
        step_src(edges, s[i])
    } else {
        to
    }
}

/// A walk followed by a walk that starts where the first ends is a walk.
pub proof fn lemma_walk_concat(edges: Seq<Edge>, s: Seq<Step>, t: Seq<Step>, a: int, b: int, c: int)
    requires
        is_walk(edges, s, a, b),
        is_walk(edges, t, b, c),
    ensures
        is_walk(edges, s + t, a, c),
{
    let st = s + t;
    assert forall|i: int| 0 <= i < st.len() - 1 implies #[trigger] linked(edges, st, i) by {
        if i < s.len() - 1 {
            assert(linked(edges, s, i));
        } else if i >= s.len() {
            assert(linked(edges, t, i - s.len()));
            assert(st[i] == t[i - s.len()]);
            assert(st[i + 1] == t[i + 1 - s.len()]);
        } else {
            assert(st[i] == s[s.len() - 1]);
            assert(st[i + 1] == t[0]);
        }
    }
    assert forall|i: int| 0 <= i < st.len() implies 0 <= (#[trigger] st[i]).edge < edges.len() by {
        if i < s.len() {
            assert(st[i] == s[i]);
        } else {
            assert(st[i] == t[i - s.len()]);
        }
    }
    if st.len() > 0 {
        if s.len() > 0 {
            assert(st[0] == s[0]);
        } else {
            assert(st[0] == t[0]);
        }
        if t.len() > 0 {
            assert(st[st.len() - 1] == t[t.len() - 1]);
        } else {
            assert(st[st.len() - 1] == s[s.len() - 1]);
        }
    }
}

/// A walk with one more step at its end is a walk to that step's far end.
pub proof fn lemma_walk_push(edges: Seq<Edge>, s: Seq<Step>, a: int, b: int, x: Step)
    requires
        is_walk(edges, s, a, b),
        0 <= x.edge < edges.len(),
        step_src(edges, x) == b,
    ensures
        is_walk(edges, s.push(x), a, step_dst(edges, x)),
{
    let one = seq![x];
    assert(one[0] == x);
    assert(is_walk(edges, one, b, step_dst(edges, x)));
    lemma_walk_concat(edges, s, one, a, b, step_dst(edges, x));
    assert(s.push(x) =~= s + one);
}

/// A walk walked backwards is a walk between the swapped ends.
pub proof fn lemma_walk_backwards(edges: Seq<Edge>, s: Seq<Step>, a: int, b: int)
    requires
        is_walk(edges, s, a, b),
    ensures
        is_walk(edges, backwards(s), b, a),
        backwards(s).len() == s.len(),
        forall|i: int| 0 <= i < s.len() ==> (#[trigger] backwards(s)[i]).edge == s[s.len() - 1 - i].edge,
{
    let r = backwards(s);
    assert forall|i: int| 0 <= i < r.len() - 1 implies #[trigger] linked(edges, r, i) by {
        assert(linked(edges, s, s.len() - 2 - i));
    }
}

/// A stretch of a walk is a walk between the vertices at its two cuts.
pub proof fn lemma_walk_stretch(edges: Seq<Edge>, s: Seq<Step>, a: int, b: int, i: int, j: int)
    requires
        is_walk(edges, s, a, b),
        0 <= i <= j <= s.len(),
    ensures
        is_walk(edges, s.subrange(i, j), walk_at(edges, s, b, i), walk_at(edges, s, b, j)),
{
    let t = s.subrange(i, j);
    assert forall|k: int| 0 <= k < t.len() - 1 implies #[trigger] linked(edges, t, k) by {
        assert(linked(edges, s, i + k));
    }
    if i < j {
        assert(t[0] == s[i]);
        assert(t[t.len() - 1] == s[j - 1]);
        if j < s.len() {
            assert(linked(edges, s, j - 1));
        }
    }
}

/// In a closed walk that uses some edge exactly once, a cycle can be found.
pub proof fn lemma_closed_walk_has_cycle(edges: Seq<Edge>, s: Seq<Step>, at: int, i: int)
    requires
        is_walk(edges, s, at, at),
        0 <= i < s.len(),
        forall|j: int| 0 <= j < s.len() && j != i ==> (#[trigger] s[j]).edge != s[i].edge,
    ensures
        has_cycle(edges),
    decreases s.len(),
{
    if distinct_edges(s) {
        assert(is_cycle(edges, s));
    } else {
        let (j1, j2) = choose|j1: int, j2: int|
            0 <= j1 < j2 < s.len() && (#[trigger] s[j1]).edge == (#[trigger] s[j2]).edge;
        assert(j1 != i && j2 != i);
        // The walk is cut at the two uses of the repeated edge. When both
        // uses go the same way the second use stays with the outer part;
        // when they go opposite ways both uses are dropped.
        let same = s[j1].fwd == s[j2].fwd;
        let lo = if same { j1 } else { j1 + 1 };
        let hi = if same { j2 } else { j2 + 1 };
        let inner = s.subrange(lo, j2);
        let head = s.subrange(0, j1);
        let tail = s.subrange(hi, s.len() as int);
        let outer = head + tail;
        let x = walk_at(edges, s, at, lo);
        let y = walk_at(edges, s, at, j1);
        assert(s[0] == s[0] && (s.len() > 0 ==> step_src(edges, s[0]) == at));
        assert(walk_at(edges, s, at, 0) == at);
        lemma_walk_stretch(edges, s, at, at, lo, j2);
        lemma_walk_stretch(edges, s, at, at, 0, j1);
        lemma_walk_stretch(edges, s, at, at, hi, s.len() as int);
        assert(walk_at(edges, s, at, j2) == x) by {
            if !same {
                assert(linked(edges, s, j1));
            }
        }
        assert(walk_at(edges, s, at, hi) == y) by {
            if !same {
                if j2 + 1 < s.len() {
                    assert(linked(edges, s, j2));
                }
            }
        }
        lemma_walk_concat(edges, head, tail, at, y, at);
        if lo <= i < j2 {
            assert(inner[i - lo] == s[i]);
            assert forall|j: int| 0 <= j < inner.len() && j != i - lo implies (#[trigger] inner[j]).edge
                != inner[i - lo].edge by {
                assert(inner[j] == s[lo + j]);
            }
            lemma_closed_walk_has_cycle(edges, inner, x, i - lo);
        } else {
            let k = if i < j1 { i } else { i - hi + j1 };
            assert(outer[k] == s[i]);
            assert forall|j: int| 0 <= j < outer.len() && j != k implies (#[trigger] outer[j]).edge
                != outer[k].edge by {
                if j < j1 {
                    assert(outer[j] == s[j]);
                } else {
                    assert(outer[j] == s[j - j1 + hi]);
                }
            }
            lemma_closed_walk_has_cycle(edges, outer, at, k);
        }
    }
}

/// Edge `e` hangs its endpoint of higher rank from the one of lower rank:
/// it is the edge that `up` records for the higher endpoint.
pub open spec fn hangs(edges: Seq<Edge>, rank: Seq<int>, up: Seq<int>, e: int) -> bool {
    let a = edges[e].a as int;
    let b = edges[e].b as int;
    ||| up[a] == e && rank[b] < rank[a]
    ||| up[b] == e && rank[a] < rank[b]
}

/// Some position of the non-empty walk `c` leaves a vertex whose rank no
/// other position's vertex exceeds.
proof fn lemma_highest_position(edges: Seq<Edge>, rank: Seq<int>, c: Seq<Step>, len: int) -> (m: int)
    requires
        0 < len <= c.len(),
    ensures
        0 <= m < len,
        forall|i: int| 0 <= i < len ==> rank[step_src(edges, #[trigger] c[i])] <= rank[step_src(edges, c[m])],
    decreases len,
{
    if len == 1 {
        0
    } else {
        let m = lemma_highest_position(edges, rank, c, len - 1);
        if rank[step_src(edges, c[len - 1])] > rank[step_src(edges, c[m])] {
            len - 1
        } else {
            m
        }
    }
}

/// If the vertices can be ranked so that every edge hangs its higher
/// endpoint from its lower one, and no vertex hangs from two edges, the
/// graph is a forest.
pub proof fn lemma_ranked_is_forest(edges: Seq<Edge>, n: int, rank: Seq<int>, up: Seq<int>)
    requires
        rank.len() == n,
        up.len() == n,
        forall|e: int| 0 <= e < edges.len() ==> (#[trigger] edges[e]).a < n && edges[e].b < n,
        forall|e: int| 0 <= e < edges.len() ==> #[trigger] hangs(edges, rank, up, e),
    ensures
        is_forest(edges),
{
    if has_cycle(edges) {
        let c = choose|c: Seq<Step>| is_cycle(edges, c);
        let len = c.len() as int;
        let m = lemma_highest_position(edges, rank, c, len);
        let x = step_src(edges, c[m]);
        // The step that arrives at x, and the step that leaves it.
        let before = if m == 0 { len - 1 } else { m - 1 };
        let after = if m == len - 1 { 0 } else { m + 1 };
        assert(step_dst(edges, c[before]) == x) by {
            if m > 0 {
                assert(linked(edges, c, m - 1));
            }
        }
        assert(step_dst(edges, c[m]) == step_src(edges, c[after])) by {
            if m < len - 1 {
                assert(linked(edges, c, m));
            }
        }
        let e_in = c[before].edge;
        let e_out = c[m].edge;
        assert(hangs(edges, rank, up, e_in));
        assert(hangs(edges, rank, up, e_out));
        assert(rank[step_src(edges, c[before])] <= rank[x]);
        assert(rank[step_src(edges, c[after])] <= rank[x]);
        assert(up[x] == e_in);
        assert(up[x] == e_out);
        if len == 1 {
            assert(false);
        } else {
            assert(before != m);
            assert(false);
        }
    }
}

/// Without edges there is no cycle.
pub proof fn lemma_no_edges_is_forest(edges: Seq<Edge>)
    requires
        edges.len() == 0,
    ensures
        is_forest(edges),
{
    assert forall|c: Seq<Step>| !is_cycle(edges, c) by {
        if is_cycle(edges, c) {
            assert(0 <= c[0].edge < edges.len());
        }
    }
}

/// Two labels below `n` that give the same sum modulo `n` with a third
/// number are the same.
proof fn lemma_cancel(m: int, x: int, y: int, n: int)
    requires
        0 <= x < n,
        0 <= y < n,
        (m + x) % n == (m + y) % n,
    ensures
        x == y,
{
    vstd::arithmetic::div_mod::lemma_mod_equivalence(m + x, m + y, n);
    if x >= y {
        vstd::arithmetic::div_mod::lemma_small_mod((x - y) as nat, n as nat);
    } else {
        vstd::arithmetic::div_mod::lemma_mod_equivalence(m + y, m + x, n);
        vstd::arithmetic::div_mod::lemma_small_mod((y - x) as nat, n as nat);
    }
}

/// Two labellings that agree where a walk starts agree where it ends.
pub proof fn lemma_labels_along_walk(
    edges: Seq<Edge>,
    n: int,
    first: Seq<usize>,
    second: Seq<usize>,
    s: Seq<Step>,
    a: int,
    b: int,
)
    requires
        labelling(edges, n, first),
        labelling(edges, n, second),
        forall|e: int| 0 <= e < edges.len() ==> (#[trigger] edges[e]).a < n && edges[e].b < n,
        is_walk(edges, s, a, b),
        first[a] == second[a],
    ensures
        first[b] == second[b],
    decreases s.len(),
{
    if s.len() > 0 {
        let last = s.len() - 1;
        let e = s[last].edge;
        let mid = step_src(edges, s[last]);
        lemma_walk_stretch(edges, s, a, b, 0, last);
        lemma_labels_along_walk(edges, n, first, second, s.subrange(0, last), a, mid);
        assert(edges[e].a < n && edges[e].b < n);
        assert(edge_met(edges, n, first, e));
        assert(edge_met(edges, n, second, e));
        lemma_cancel(first[mid] as int, first[b] as int, second[b] as int, n);
    }
}

/// The least vertex from which a walk leads to `v`, looked for from
/// `from` upwards.
proof fn lemma_first_connected(edges: Seq<Edge>, v: int, from: int) -> (r: int)
    requires
        0 <= from <= v,
        forall|u: int| 0 <= u < from ==> !#[trigger] connected(edges, u, v),
    ensures
        from <= r <= v,
        connected(edges, r, v),
        forall|u: int| 0 <= u < r ==> !#[trigger] connected(edges, u, v),
    decreases v - from,
{
    if connected(edges, from, v) {
        from
    } else {
        assert(is_walk(edges, Seq::<Step>::empty(), v, v));
        lemma_first_connected(edges, v, from + 1)
    }
}

/// Every vertex is connected to the least vertex of its component.
pub proof fn lemma_least_of_component(edges: Seq<Edge>, v: int) -> (r: int)
    requires
        0 <= v,
    ensures
        0 <= r <= v,
        connected(edges, r, v),
        least_of_component(edges, r),
{
    let r = lemma_first_connected(edges, v, 0);
    let onward = choose|s: Seq<Step>| is_walk(edges, s, r, v);
    assert forall|u: int| 0 <= u < r implies !#[trigger] connected(edges, u, r) by {
        if connected(edges, u, r) {
            let s = choose|s: Seq<Step>| is_walk(edges, s, u, r);
            lemma_walk_concat(edges, s, onward, u, r, v);
            assert(connected(edges, u, v));
        }
    }
    r
}

/// The labelling is fixed by what is asked of it: two labellings that
/// meet every edge and give `0` to the least vertex of every component are
/// the same.
pub proof fn lemma_labelling_unique(edges: Seq<Edge>, n: int, first: Seq<usize>, second: Seq<usize>)
    requires
        labelling(edges, n, first),
        labelling(edges, n, second),
        forall|e: int| 0 <= e < edges.len() ==> (#[trigger] edges[e]).a < n && edges[e].b < n,
        forall|v: int| 0 <= v < n && least_of_component(edges, v) ==> #[trigger] first[v] == 0,
        forall|v: int| 0 <= v < n && least_of_component(edges, v) ==> #[trigger] second[v] == 0,
    ensures
        first == second,
{
    assert forall|v: int| 0 <= v < n implies first[v] == second[v] by {
        let r = lemma_least_of_component(edges, v);
        let s = choose|s: Seq<Step>| is_walk(edges, s, r, v);
        lemma_labels_along_walk(edges, n, first, second, s, r, v);
    }
    assert(first =~= second);
}

/// Some vertex has a rank that no vertex below `len` undercuts.
proof fn lemma_lowest_vertex(rank: Seq<int>, len: int) -> (m: int)
    requires
        0 < len <= rank.len(),
    ensures
        0 <= m < len,
        forall|v: int| 0 <= v < len ==> rank[m] <= #[trigger] rank[v],
    decreases len,
{
    if len == 1 {
        0
    } else {
        let m = lemma_lowest_vertex(rank, len - 1);
        if rank[len - 1] < rank[m] {
            len - 1
        } else {
            m
        }
    }
}

/// The endpoint that edge `e` hangs from its other endpoint.
pub open spec fn hung(edges: Seq<Edge>, rank: Seq<int>, up: Seq<int>, e: int) -> int {
    let a = edges[e].a as int;
    let b = edges[e].b as int;
    if up[a] == e && rank[b] < rank[a] {
        a
    } else {
        b
    }
}

/// Under the ranking of `lemma_ranked_is_forest` there are fewer edges
/// than vertices: every edge hangs a vertex of its own, and a vertex of
/// lowest rank hangs from none.
pub proof fn lemma_ranked_is_sparse(edges: Seq<Edge>, n: int, rank: Seq<int>, up: Seq<int>)
    requires
        0 < n,
        rank.len() == n,
        up.len() == n,
        forall|e: int| 0 <= e < edges.len() ==> (#[trigger] edges[e]).a < n && edges[e].b < n,
        forall|e: int| 0 <= e < edges.len() ==> #[trigger] hangs(edges, rank, up, e),
    ensures
        edges.len() < n,
{
    let low = lemma_lowest_vertex(rank, n);
    let all = vstd::set_lib::set_int_range(0, edges.len() as int);
    let f = |e: int| hung(edges, rank, up, e);
    let image = all.map(f);
    let room = vstd::set_lib::set_int_range(0, n).remove(low);
    vstd::set_lib::lemma_int_range(0, edges.len() as int);
    vstd::set_lib::lemma_int_range(0, n);
    assert(vstd::relations::injective_on(f, all)) by {
        assert forall|e1: int, e2: int| all.contains(e1) && all.contains(e2) && #[trigger] f(e1)
            == #[trigger] f(e2) implies e1 == e2 by {
            assert(hangs(edges, rank, up, e1));
            assert(hangs(edges, rank, up, e2));
        }
    }
    vstd::set_lib::lemma_map_size(all, image, f);
    assert(image.subset_of(room)) by {
        assert forall|x: int| image.contains(x) implies room.contains(x) by {
            let e = choose|e: int| all.contains(e) && x == f(e);
            assert(hangs(edges, rank, up, e));
            assert(edges[e].a < n && edges[e].b < n);
        }
    }
    vstd::set_lib::lemma_len_subset(image, room);
}

} // verus!
