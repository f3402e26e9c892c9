//! How a list of edges lies in adjacency lists.
//!
//! Each edge leaves one entry in the adjacency list of either endpoint. The
//! `Layout` records, for every edge, where its two entries went, and for
//! every entry, which edge it belongs to, so that proofs can pass from
//! entries to edges and back.

use vstd::prelude::*;
use crate::forest::{Edge, Step, step_src, step_dst};

verus! {

/// The adjacency lists of a graph together with the edges they came from.
pub struct Layout {
    /// Number of vertices.
    pub n: int,
    /// The edges, in the order in which they were added.
    pub edges: Seq<Edge>,
    /// `adj[v][k]` is the `k`-th entry of vertex `v`: a neighbour and the
    /// weight of the edge that leads there.
    pub adj: Seq<Seq<(usize, usize)>>,
    /// `ids[v][k]` is the index of the edge that `adj[v][k]` belongs to.
    pub ids: Seq<Seq<int>>,
    /// `slots[e]` gives the positions of edge `e` in the lists of its
    /// endpoints `a` and `b`.
    pub slots: Seq<(int, int)>,
}

impl Layout {
    /// Number of entries of vertex `v`.
    pub open spec fn deg(self, v: int) -> int {
        self.adj[v].len() as int
    }

    /// The neighbour named by entry `k` of vertex `v`.
    pub open spec fn nbr(self, v: int, k: int) -> int {
        self.adj[v][k].0 as int
    }

    /// The weight carried by entry `k` of vertex `v`.
    pub open spec fn weight(self, v: int, k: int) -> int {
        self.adj[v][k].1 as int
    }

    /// `(v, k)` names an entry.
    pub open spec fn has(self, v: int, k: int) -> bool {
        0 <= v < self.n && 0 <= k < self.deg(v)
    }

    /// Edge `e` has its two entries where `slots` says, and they are two
    /// different entries.
    pub open spec fn edge_ok(self, e: int) -> bool {
        let a = self.edges[e].a as int;
        let b = self.edges[e].b as int;
        let w = self.edges[e].w;
        let (ka, kb) = self.slots[e];
        &&& a < self.n
        &&& b < self.n
        &&& 0 <= ka < self.deg(a)
        &&& 0 <= kb < self.deg(b)
        &&& self.ids[a][ka] == e
        &&& self.ids[b][kb] == e
        &&& self.adj[a][ka] == (self.edges[e].b, w)
        &&& self.adj[b][kb] == (self.edges[e].a, w)
        &&& a == b ==> ka != kb
    }

    /// Entry `k` of vertex `v` is one of the two entries of its edge.
    pub open spec fn entry_ok(self, v: int, k: int) -> bool {
        let e = self.ids[v][k];
        &&& 0 <= e < self.edges.len()
        &&& (self.edges[e].a == v && self.slots[e].0 == k) || (self.edges[e].b == v
            && self.slots[e].1 == k)
    }

    /// Entries and edge ends correspond one to one.
    pub open spec fn wf(self) -> bool {
        &&& 0 <= self.n
        &&& self.adj.len() == self.n
        &&& self.ids.len() == self.n
        &&& self.slots.len() == self.edges.len()
        &&& forall|v: int| 0 <= v < self.n ==> (#[trigger] self.ids[v]).len() == self.adj[v].len()
        &&& forall|e: int| 0 <= e < self.edges.len() ==> #[trigger] self.edge_ok(e)
        &&& forall|v: int, k: int| self.has(v, k) ==> #[trigger] self.entry_ok(v, k)
    }

    /// The step along the edge of entry `(v, k)` that leaves `v`.
    pub open spec fn step(self, v: int, k: int) -> Step {
        let e = self.ids[v][k];
        Step { edge: e, fwd: self.edges[e].a == v && self.slots[e].0 == k }
    }

    /// The other entry of the edge of entry `(v, k)`.
    pub open spec fn twin(self, v: int, k: int) -> (int, int) {
        let e = self.ids[v][k];
        if self.edges[e].a == v && self.slots[e].0 == k {
            (self.edges[e].b as int, self.slots[e].1)
        } else {
            (self.edges[e].a as int, self.slots[e].0)
        }
    }

    /// The layout of `n` vertices without edges.
    pub open spec fn empty(n: int) -> Layout {
        Layout {
            n,
            edges: Seq::empty(),
            adj: Seq::new(n as nat, |v: int| Seq::empty()),
            ids: Seq::new(n as nat, |v: int| Seq::empty()),
            slots: Seq::empty(),
        }
    }

    /// The layout after one more edge from `a` to `b` of weight `w` was
    /// appended to the lists of `a` and then of `b`.
    pub open spec fn with_edge(self, a: usize, b: usize, w: usize) -> Layout {
        let e = self.edges.len() as int;
        let ka = self.deg(a as int);
        let adj1 = self.adj.update(a as int, self.adj[a as int].push((b, w)));
        let ids1 = self.ids.update(a as int, self.ids[a as int].push(e));
        let kb = adj1[b as int].len() as int;
        Layout {
            n: self.n,
            edges: self.edges.push(Edge { a, b, w }),
            adj: adj1.update(b as int, adj1[b as int].push((a, w))),
            ids: ids1.update(b as int, ids1[b as int].push(e)),
            slots: self.slots.push((ka, kb)),
        }
    }

    /// What an entry tells of its edge: the step along it leaves `v`,
    /// arrives at the neighbour and carries the entry's weight.
    pub proof fn lemma_entry(self, v: int, k: int)
        requires
            self.wf(),
            self.has(v, k),
        ensures
            0 <= self.ids[v][k] < self.edges.len(),
            self.step(v, k).edge == self.ids[v][k],
            step_src(self.edges, self.step(v, k)) == v,
            step_dst(self.edges, self.step(v, k)) == self.nbr(v, k),
            self.weight(v, k) == self.edges[self.ids[v][k]].w,
            0 <= self.nbr(v, k) < self.n,
    {
        assert(self.entry_ok(v, k));
        assert(self.edge_ok(self.ids[v][k]));
    }

    /// The twin of an entry is another entry, of the same edge, that lies
    /// with the neighbour and names `v`.
    pub proof fn lemma_twin(self, v: int, k: int)
        requires
            self.wf(),
            self.has(v, k),
        ensures
            self.has(self.twin(v, k).0, self.twin(v, k).1),
            self.twin(v, k) != (v, k),
            self.twin(v, k).0 == self.nbr(v, k),
            self.ids[self.twin(v, k).0][self.twin(v, k).1] == self.ids[v][k],
            self.nbr(self.twin(v, k).0, self.twin(v, k).1) == v,
            self.weight(self.twin(v, k).0, self.twin(v, k).1) == self.weight(v, k),
    {
        assert(self.entry_ok(v, k));
        assert(self.edge_ok(self.ids[v][k]));
    }

    /// Two different entries of one edge are twins.
    pub proof fn lemma_same_edge(self, v: int, k: int, u: int, j: int)
        requires
            self.wf(),
            self.has(v, k),
            self.has(u, j),
            self.ids[v][k] == self.ids[u][j],
            (v, k) != (u, j),
        ensures
            self.twin(v, k) == (u, j),
    {
        assert(self.entry_ok(v, k));
        assert(self.entry_ok(u, j));
        assert(self.edge_ok(self.ids[v][k]));
    }

    /// Every edge has an entry at its endpoint `a`, whose twin lies at `b`.
    pub proof fn lemma_edge_entries(self, e: int)
        requires
            self.wf(),
            0 <= e < self.edges.len(),
        ensures
            self.has(self.edges[e].a as int, self.slots[e].0),
            self.ids[self.edges[e].a as int][self.slots[e].0] == e,
            self.nbr(self.edges[e].a as int, self.slots[e].0) == self.edges[e].b,
            self.weight(self.edges[e].a as int, self.slots[e].0) == self.edges[e].w,
            self.twin(self.edges[e].a as int, self.slots[e].0) == (
                self.edges[e].b as int,
                self.slots[e].1,
            ),
    {
        assert(self.edge_ok(e));
    }

    /// The layout without edges is well formed.
    pub proof fn lemma_empty_wf(n: int)
        requires
            0 <= n,
        ensures
            Self::empty(n).wf(),
    {
    }

    /// Adding an edge keeps the layout well formed and moves no entry.
    pub proof fn lemma_with_edge_wf(self, a: usize, b: usize, w: usize)
        requires
            self.wf(),
            a < self.n,
            b < self.n,
        ensures
            self.with_edge(a, b, w).wf(),
    {
        let next = self.with_edge(a, b, w);
        let e = self.edges.len() as int;
        assert forall|v: int, k: int| self.has(v, k) implies next.adj[v][k] == self.adj[v][k]
            && next.ids[v][k] == self.ids[v][k] by {}
        assert forall|v: int| 0 <= v < next.n implies (#[trigger] next.ids[v]).len()
            == next.adj[v].len() by {
            assert(self.ids[v].len() == self.adj[v].len());
        }
        assert forall|f: int| 0 <= f < next.edges.len() implies #[trigger] next.edge_ok(f) by {
            if f < e {
                assert(self.edge_ok(f));
            }
        }
        assert forall|v: int, k: int| next.has(v, k) implies #[trigger] next.entry_ok(v, k) by {
            if self.has(v, k) {
                assert(self.entry_ok(v, k));
            }
        }
    }
}

} // verus!
