//! The graph model: a fixed vertex count `N` (`1 <= N <= 31`) and a directed
//! edge relation, held as per-vertex ordered adjacency lists.  A graph can be
//! built from adjacency lists directly or from a flat list of `(u, v)` pairs;
//! the flat form is grouped by source vertex, preserving the order of the
//! pairs, so both representations carry the same relation (with edge
//! multiplicities kept: duplicate edges count as extra relaxation terms).

use vstd::prelude::*;

verus! {

/// Vertex counts the mask machinery supports: subset masks over the vertices
/// must fit in 31 bits.
pub open spec fn vertex_count_ok(n: nat) -> bool {
    1 <= n && n <= 31
}

/// Well-formed adjacency lists: a supported vertex count and every successor
/// in range.
pub open spec fn adj_wf(adj: Seq<Seq<usize>>) -> bool {
    &&& vertex_count_ok(adj.len())
    &&& forall|u: int, j: int|
        0 <= u < adj.len() && 0 <= j < adj[u].len() ==> (#[trigger] adj[u][j]) < adj.len()
}

/// Adjacency lists with `n` vertices and no edges.
pub open spec fn empty_adjacency(n: nat) -> Seq<Seq<usize>> {
    Seq::new(n, |u: int| Seq::<usize>::empty())
}

/// The adjacency lists a flat edge list denotes: pairs grouped by source
/// vertex, each row keeping the order in which its pairs appear.
pub open spec fn adjacency_of(n: nat, edges: Seq<(usize, usize)>) -> Seq<Seq<usize>>
    decreases edges.len(),
{
    if edges.len() == 0 {
        empty_adjacency(n)
    } else {
        let prev = adjacency_of(n, edges.drop_last());
        let e = edges.last();
        prev.update(e.0 as int, prev[e.0 as int].push(e.1))
    }
}

/// Every pair of the flat edge list names vertices below `n`.
pub open spec fn edges_in_range(n: nat, edges: Seq<(usize, usize)>) -> bool {
    forall|i: int|
        0 <= i < edges.len() ==> (#[trigger] edges[i]).0 < n && edges[i].1 < n
}

/// A directed graph on `N <= 31` vertices, as per-vertex adjacency lists.
pub struct Graph {
    adj: Vec<Vec<usize>>,
}

impl View for Graph {
    type V = Seq<Seq<usize>>;

    closed spec fn view(&self) -> Seq<Seq<usize>> {
        Seq::new(self.adj@.len(), |u: int| self.adj@[u]@)
    }
}

impl Graph {
    /// The construction invariant: vertex count in range, successors in range.
    pub open spec fn wf(&self) -> bool {
        adj_wf(self@)
    }

    /// Builds a graph from adjacency lists; rejects exactly the inputs whose
    /// vertex count is unsupported or that name a vertex out of range.
    pub fn new(adj: Vec<Vec<usize>>) -> (r: Option<Graph>)
        ensures
            r is Some <==> {
                &&& 1 <= adj@.len() <= 31
                &&& forall|u: int, j: int|
                    0 <= u < adj@.len() && 0 <= j < adj@[u]@.len() ==> (#[trigger] adj@[u]@[j])
                        < adj@.len()
            },
            r is Some ==> {
                &&& r->Some_0@ == Seq::new(adj@.len(), |u: int| adj@[u]@)
                &&& r->Some_0.wf()
            },
    {
        let n = adj.len();
        if n < 1 || n > 31 {
            return None;
        }
        for u in 0..adj.len()
            invariant
                forall|uu: int, j: int|
                    0 <= uu < u && 0 <= j < adj@[uu]@.len() ==> (#[trigger] adj@[uu]@[j])
                        < adj@.len(),
        {
            let row = &adj[u];
            for j in 0..row.len()
                invariant
                    row == &adj[u as int],
                    u < adj@.len(),
                    forall|uu: int, jj: int|
                        0 <= uu < u && 0 <= jj < adj@[uu]@.len() ==> (#[trigger] adj@[uu]@[jj])
                            < adj@.len(),
                    forall|jj: int| 0 <= jj < j ==> (#[trigger] row@[jj]) < adj@.len(),
            {
                if row[j] >= adj.len() {
                    return None;
                }
            }
        }
        let g = Graph { adj };
        proof {
            assert(g.wf());
        }
        Some(g)
    }

    /// Builds a graph from a flat edge list on `n` vertices; rejects exactly
    /// the inputs whose vertex count is unsupported or that name a vertex out
    /// of range.  The resulting adjacency lists are the pairs grouped by
    /// source vertex in order of appearance.
    pub fn from_edges(n: usize, edges: &Vec<(usize, usize)>) -> (r: Option<Graph>)
        ensures
            r is Some <==> 1 <= n <= 31 && edges_in_range(n as nat, edges@),
            r is Some ==> {
                &&& r->Some_0@ == adjacency_of(n as nat, edges@)
                &&& r->Some_0.wf()
            },
    {
        if n < 1 || n > 31 {
            return None;
        }
        let mut adj: Vec<Vec<usize>> = Vec::new();
        for u in 0..n
            invariant
                adj@.len() == u,
                forall|uu: int| 0 <= uu < u ==> (#[trigger] adj@[uu]@) =~= Seq::<usize>::empty(),
        {
            adj.push(Vec::new());
        }
        proof {
            assert(Seq::new(adj@.len(), |u: int| adj@[u]@) =~= empty_adjacency(n as nat));
            assert(edges@.take(0) =~= Seq::<(usize, usize)>::empty());
        }
        for i in 0..edges.len()
            invariant
                1 <= n <= 31,
                adj@.len() == n,
                edges_in_range(n as nat, edges@.take(i as int)),
                forall|uu: int, jj: int|
                    0 <= uu < adj@.len() && 0 <= jj < adj@[uu]@.len() ==> (#[trigger] adj@[uu]@[jj])
                        < n,
                Seq::new(adj@.len(), |u: int| adj@[u]@) == adjacency_of(
                    n as nat,
                    edges@.take(i as int),
                ),
        {
            let (u, v) = edges[i];
            if u >= n || v >= n {
                return None;
            }
            let ghost before = Seq::new(adj@.len(), |uu: int| adj@[uu]@);
            adj[u].push(v);
            proof {
                let taken = edges@.take(i + 1);
                assert(taken.drop_last() =~= edges@.take(i as int));
                assert(taken.last() == edges@[i as int]);
                assert(Seq::new(adj@.len(), |uu: int| adj@[uu]@) =~= before.update(
                    u as int,
                    before[u as int].push(v),
                ));
                assert(edges_in_range(n as nat, taken));
            }
        }
        proof {
            assert(edges@.take(edges@.len() as int) =~= edges@);
        }
        let g = Graph { adj };
        proof {
            assert(g.wf());
        }
        Some(g)
    }

    /// The number of vertices.
    pub fn vertex_count(&self) -> (n: usize)
        ensures
            n == self@.len(),
    {
        self.adj.len()
    }

    /// The ordered successors of vertex `u`.
    pub fn successors(&self, u: usize) -> (row: &Vec<usize>)
        requires
            u < self@.len(),
        ensures
            row@ == self@[u as int],
    {
        &self.adj[u]
    }
}

} // verus!
