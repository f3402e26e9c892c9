//! An undirected weighted multigraph over a fixed number of vertices, and
//! the traversal that labels its vertices when it is a forest.

use vstd::prelude::*;
use crate::forest::{
    Edge, has_cycle, is_forest, labelling, least_of_component, lemma_labelling_unique,
};
use crate::layout::Layout;
use crate::traverse::{
    between, entered, growing, initial, inv, left, lemma_enter, lemma_finish, lemma_initial,
    lemma_leave, lemma_pass, lemma_plant, lemma_scan_hit, lemma_scan_push, lemma_scan_skip,
    lemma_stale, passed, planted, pushed, seen_ok, stepped,
};

verus! {

/// What a [`Graph`] stands for: its number of vertices and its edges, in
/// the order in which they were connected.
pub struct GraphView {
    pub size: nat,
    pub edges: Seq<Edge>,
}

/// An undirected weighted multigraph, kept as adjacency lists.
pub struct Graph {
    num_vertices: usize,
    adjacent: Vec<Vec<(usize, usize)>>,
    plan: Ghost<Layout>,
}

impl View for Graph {
    type V = GraphView;

    closed spec fn view(&self) -> GraphView {
        GraphView { size: self.num_vertices as nat, edges: self.plan@.edges }
    }
}

impl Graph {
    /// The adjacency lists as nested sequences.
    spec fn lists(&self) -> Seq<Seq<(usize, usize)>> {
        Seq::new(self.adjacent@.len(), |v: int| self.adjacent@[v]@)
    }

    /// The adjacency lists hold exactly the edges of the view, each edge
    /// once in the list of either endpoint, and every endpoint is a vertex.
    pub closed spec fn wf(&self) -> bool {
        &&& self.plan@.wf()
        &&& self.plan@.n == self.num_vertices
        &&& self.plan@.adj == self.lists()
    }

    /// In a well-formed graph both endpoints of every edge are vertices.
    pub proof fn lemma_endpoints(&self, e: int)
        requires
            self.wf(),
            0 <= e < self@.edges.len(),
        ensures
            self@.edges[e].a < self@.size,
            self@.edges[e].b < self@.size,
    {
        assert(self.plan@.edge_ok(e));
    }

    /// What `assign_vertex_values` promises of its labels leaves no choice:
    /// two labellings of a well-formed graph that meet every edge and give
    /// `0` to the least vertex of every component are the same.
    pub proof fn lemma_assignment_unique(&self, first: Seq<usize>, second: Seq<usize>)
        requires
            self.wf(),
            labelling(self@.edges, self@.size as int, first),
            labelling(self@.edges, self@.size as int, second),
            forall|v: int|
                0 <= v < self@.size && least_of_component(self@.edges, v) ==> #[trigger] first[v]
                    == 0,
            forall|v: int|
                0 <= v < self@.size && least_of_component(self@.edges, v) ==> #[trigger] second[v]
                    == 0,
        ensures
            first == second,
    {
        assert forall|e: int| 0 <= e < self@.edges.len() implies (#[trigger] self@.edges[e]).a
            < self@.size && self@.edges[e].b < self@.size by {
            self.lemma_endpoints(e);
        }
        lemma_labelling_unique(self@.edges, self@.size as int, first, second);
    }

    /// A graph of `num_vertices` isolated vertices.
    pub fn new(num_vertices: usize) -> (g: Self)
        ensures
            g.wf(),
            g@.size == num_vertices,
            g@.edges == Seq::<Edge>::empty(),
    {
        let g = Graph {
            num_vertices,
            adjacent: vec![Vec::new(); num_vertices],
            plan: Ghost(Layout::empty(num_vertices as int)),
        };
        proof {
            Layout::lemma_empty_wf(num_vertices as int);
            assert(g.plan@.adj =~= g.lists());
        }
        g
    }

    /// Adds an undirected edge of weight `edge_value` between `vertex1` and
    /// `vertex2`. The two may be the same vertex, and an edge between them
    /// may exist already.
    pub fn connect(&mut self, vertex1: usize, vertex2: usize, edge_value: usize)
        requires
            old(self).wf(),
            vertex1 < old(self)@.size,
            vertex2 < old(self)@.size,
        ensures
            final(self).wf(),
            final(self)@.size == old(self)@.size,
            final(self)@.edges == old(self)@.edges.push(
                Edge { a: vertex1, b: vertex2, w: edge_value },
            ),
    {
        proof {
            self.plan@.lemma_with_edge_wf(vertex1, vertex2, edge_value);
        }
        self.adjacent[vertex1].push((vertex2, edge_value));
        self.adjacent[vertex2].push((vertex1, edge_value));
        self.plan = Ghost(self.plan@.with_edge(vertex1, vertex2, edge_value));
        proof {
            assert(self.plan@.adj =~= self.lists());
        }
    }

    /// Labels the vertices so that the labels at the two ends of every edge
    /// add up to the edge's weight, modulo the number of vertices.
    ///
    /// Such a labelling is looked for only in a forest: the result is
    /// `None` exactly when the graph holds a cycle, be it a self-loop, a
    /// pair of parallel edges or a longer one. In a forest every vertex
    /// gets a label below the number of vertices, and the vertex of least
    /// index in each connected component gets `0`, which fixes all others
    /// (see [`Self::lemma_assignment_unique`]). A forest has fewer edges
    /// than vertices.
    ///
    /// The vertices are visited depth first, from a stack and not by
    /// recursion, so that a long path is no harder than a short one.
    pub fn assign_vertex_values(&self) -> (labels: Option<Vec<usize>>)
        requires
            self.wf(),
        ensures
            labels is Some <==> is_forest(self@.edges),
            labels matches Some(found) ==> {
                &&& labelling(self@.edges, self@.size as int, found@)
                &&& 0 < self@.size ==> self@.edges.len() < self@.size
                &&& forall|v: int|
                    0 <= v < self@.size && least_of_component(self@.edges, v) ==> #[trigger] found@[v]
                        == 0
            },
    {
        let n = self.num_vertices;
        let ghost l = self.plan@;
        let mut vertex_values = vec![usize::MAX; n];
        let mut visited = vec![false; n];
        let ghost mut t = initial(l);
        proof {
            lemma_initial(l, visited@, vertex_values@);
        }

        let mut root: usize = 0;
        while root < n
            invariant
                self.wf(),
                l == self.plan@,
                n == self.num_vertices,
                root <= n,
                between(l, visited@, vertex_values@, t, root as int),
            decreases n - root,
        {
            if !visited[root] {
                proof {
                    lemma_plant(l, visited@, vertex_values@, t, root);
                    t = planted(t);
                }
                vertex_values[root] = 0;

                let mut tovisit: Vec<(Option<usize>, usize)> = vec![(None, root)];
                assert(tovisit@ =~= seq![(None, root)]);
                while tovisit.len() > 0
                    invariant
                        self.wf(),
                        l == self.plan@,
                        n == self.num_vertices,
                        root < n,
                        growing(l, visited@, vertex_values@, tovisit@, t, root as int),
                    decreases t.pending.len(),
                {
                    // A vertex may wait on the stack more than once. Its first
                    // visit is a step of the traversal; a later one means that
                    // the graph holds a cycle, which the scan below is then
                    // bound to run into.
                    let ghost stack = tovisit@;
                    let ghost waiting = t.pending.len();
                    let ghost fresh = !visited@[stack.last().1 as int];
                    let ghost mut found = (0int, 0int);
                    let ghost mut earlier = 0int;
                    proof {
                        if fresh {
                            lemma_enter(l, visited@, vertex_values@, stack, t, root as int);
                            t = entered(l, t, stack.last().1 as int);
                        } else {
                            found = lemma_stale(l, visited@, vertex_values@, stack, t, root as int);
                        }
                    }
                    let ghost seen = visited@;
                    let (parent, vertex) = tovisit.pop().unwrap();
                    visited[vertex] = true;
                    assert(tovisit@ =~= stack.drop_last());
                    assert(!fresh ==> visited@ =~= seen);

                    let mut skip = true;
                    let count = self.adjacent[vertex].len();
                    let mut k: usize = 0;
                    while k < count
                        invariant
                            self.wf(),
                            l == self.plan@,
                            n == self.num_vertices,
                            root < n,
                            vertex < n,
                            k <= count,
                            count == l.deg(vertex as int),
                            visited@.len() == n,
                            vertex_values@.len() == n,
                            vertex_values@[vertex as int] < n,
                            visited@[vertex as int],
                            skip ==> forall|j: int|
                                0 <= j < k ==> parent != Some((#[trigger] l.adj[vertex as int][j]).0),
                            !skip ==> parent is Some && 0 <= earlier < k && l.nbr(
                                vertex as int,
                                earlier,
                            ) == parent->0,
                            fresh ==> {
                                &&& inv(l, visited@, vertex_values@, tovisit@, t)
                                &&& t.cur == vertex
                                &&& t.idx == k
                                &&& t.root == root
                                &&& t.pending.len() < waiting
                                &&& parent == (if t.arr[vertex as int].0 < 0 {
                                    None
                                } else {
                                    Some(t.arr[vertex as int].0 as usize)
                                })
                            },
                            !fresh ==> {
                                &&& has_cycle(l.edges)
                                &&& parent is Some
                                &&& k <= found.0 < count
                                &&& visited@[l.nbr(vertex as int, found.0)]
                                &&& l.nbr(vertex as int, found.0) == parent->0 ==> 0 <= found.1
                                    < found.0 && l.nbr(vertex as int, found.1) == parent->0
                            },
                        decreases count - k,
                    {
                        let (neighbor, edge_value) = self.adjacent[vertex][k];
                        proof {
                            l.lemma_entry(vertex as int, k as int);
                            assert(l.adj[vertex as int][k as int] == (neighbor, edge_value));
                        }
                        if skip && parent == Some(neighbor) {
                            skip = false;
                            proof {
                                earlier = k as int;
                                if fresh {
                                    assert(seen_ok(l, visited@, vertex_values@, t, vertex as int));
                                    lemma_scan_skip(l, visited@, vertex_values@, tovisit@, t);
                                    t = stepped(t);
                                } else {
                                    if k == found.0 {
                                        assert(parent != Some(l.adj[vertex as int][found.1].0));
                                    }
                                }
                            }
                        } else {
                            if visited[neighbor] {
                                proof {
                                    if fresh {
                                        assert(seen_ok(l, visited@, vertex_values@, t, vertex as int));
                                        lemma_scan_hit(
                                            l,
                                            visited@,
                                            vertex_values@,
                                            tovisit@,
                                            t,
                                            earlier,
                                        );
                                    }
                                }
                                return None;
                            }
                            // Wide enough for any weight.
                            let label = ((n as u128 + edge_value as u128
                                - vertex_values[vertex] as u128) % (n as u128)) as usize;
                            proof {
                                if fresh {
                                    lemma_scan_push(
                                        l,
                                        visited@,
                                        vertex_values@,
                                        tovisit@,
                                        t,
                                        label,
                                    );
                                    t = pushed(t);
                                }
                            }
                            tovisit.push((Some(vertex), neighbor));
                            vertex_values[neighbor] = label;
                        }
                        k += 1;
                    }
                    proof {
                        if fresh {
                            lemma_leave(l, visited@, vertex_values@, tovisit@, t);
                            t = left(t);
                        }
                    }
                }
            }
            proof {
                lemma_pass(l, visited@, vertex_values@, t, root as int);
                t = passed(t);
            }
            root += 1;
        }

        proof {
            lemma_finish(l, visited@, vertex_values@, t);
        }
        Some(vertex_values)
    }
}

} // verus!
