//! The undirected graph that the coloring solvers work on. The compressed
//! sparse row structure comes from the graph crate; the library sees it
//! through a named adjacency model and a few trusted accessors.

use vstd::prelude::*;

verus! {

broadcast use vstd::seq_lib::group_seq_properties;

/// An undirected graph with nodes 0 to `node_count() - 1`, immutable for the
/// lifetime of a solving attempt. It holds the graph crate's compressed
/// sparse row structure, which Verus cannot look into; `csr_adj` names its
/// contents and the trusted accessors below speak over that name.
#[verifier::external_body]
pub struct ColorGraph {
    csr: graph::prelude::UndirectedCsrGraph<usize>,
}

/// The adjacency lists held by the graph's compressed sparse row structure:
/// entry `u` is the neighbor list of node `u`, in list order.
pub uninterp spec fn csr_adj(g: ColorGraph) -> Seq<Seq<usize>>;

/// The summed lengths of the adjacency lists of the first `n` nodes.
pub open spec fn entries_upto(adj: Seq<Seq<usize>>, n: int) -> int
    decreases n,
{
    if n <= 0 {
        0
    } else {
        entries_upto(adj, n - 1) + adj[n - 1].len()
    }
}

/// The number of entries over all adjacency lists: twice the edge count of
/// an undirected graph whose lists are symmetric.
pub open spec fn adj_entry_count(adj: Seq<Seq<usize>>) -> int {
    entries_upto(adj, adj.len() as int)
}

/// Both are nodes of the graph and `v` appears on node `u`'s adjacency list.
pub open spec fn adjacent(adj: Seq<Seq<usize>>, u: int, v: int) -> bool {
    0 <= u < adj.len() && 0 <= v < adj.len() && adj[u].contains(v as usize)
}

/// Well-formed adjacency: lists mention only nodes of the graph, never the
/// node itself, at most once each, the relation is symmetric, and all lists
/// together fit one physical array.
pub open spec fn adj_wf(adj: Seq<Seq<usize>>) -> bool {
    &&& adj.len() <= usize::MAX
    &&& adj_entry_count(adj) <= usize::MAX
    &&& forall|u: int, k: int|
        0 <= u < adj.len() && 0 <= k < adj[u].len() ==> (#[trigger] adj[u][k]) < adj.len()
            && adj[u][k] != u
    &&& forall|u: int, k1: int, k2: int|
        0 <= u < adj.len() && 0 <= k1 < k2 < adj[u].len() ==> #[trigger] adj[u][k1]
            != #[trigger] adj[u][k2]
    &&& forall|u: int, v: int| adjacent(adj, u, v) ==> adjacent(adj, v, u)
}

/// Relies on the graph crate: `UndirectedCsrGraph::from((edge list,
/// CsrLayout::Sorted))` builds one list per node, node count one past the
/// edge list's stated maximum node id; every listed edge (u, v) puts v into
/// u's list and u into v's, and nothing else enters any list. With
/// pairwise-distinct edges, each u < v < n, every entry is therefore another
/// node, never the node itself, and appears at most once. All lists are
/// slices of one target array, so their summed length fits a usize.
#[verifier::external_body]
fn csr_build(n: usize, edges: &Vec<(usize, usize)>) -> (g: ColorGraph)
    requires
        n >= 1,
        forall|i: int|
            0 <= i < edges@.len() ==> (#[trigger] edges@[i]).0 < edges@[i].1 && edges@[i].1 < n,
        forall|i: int, j: int| 0 <= i < j < edges@.len() ==> edges@[i] != edges@[j],
    ensures
        csr_adj(g).len() == n,
        adj_entry_count(csr_adj(g)) <= usize::MAX,
        forall|u: int, k: int|
            0 <= u < n && 0 <= k < csr_adj(g)[u].len() ==> (#[trigger] csr_adj(g)[u][k]) < n
                && csr_adj(g)[u][k] != u,
        forall|u: int, k1: int, k2: int|
            0 <= u < n && 0 <= k1 < k2 < csr_adj(g)[u].len() ==> #[trigger] csr_adj(g)[u][k1]
                != #[trigger] csr_adj(g)[u][k2],
        forall|u: usize, v: usize|
            u < n && v < n ==> (#[trigger] csr_adj(g)[u as int].contains(v) <==> (
            edges@.contains((u, v)) || edges@.contains((v, u)))),
{
    let list: Vec<(usize, usize, ())> = edges.iter().map(|&(a, b)| (a, b, ())).collect();
    let edge_list = graph::prelude::EdgeList::with_max_node_id(list, n - 1);
    ColorGraph {
        csr: graph::prelude::UndirectedCsrGraph::from((
            edge_list,
            graph::prelude::CsrLayout::Sorted,
        )),
    }
}

/// Relies on the graph crate's `Graph::node_count`: the number of nodes the
/// graph was built over, one adjacency list each.
#[verifier::external_body]
fn csr_node_count(g: &ColorGraph) -> (r: usize)
    ensures
        r == csr_adj(*g).len(),
{
    graph::prelude::Graph::node_count(&g.csr)
}

/// Relies on the graph crate's `Graph::edge_count` for undirected graphs:
/// the total entry count over all lists, halved.
#[verifier::external_body]
fn csr_edge_count(g: &ColorGraph) -> (r: usize)
    ensures
        r == adj_entry_count(csr_adj(*g)) / 2,
{
    graph::prelude::Graph::edge_count(&g.csr)
}

/// Relies on the graph crate's `UndirectedDegrees::degree`: the length of
/// the node's adjacency list.
#[verifier::external_body]
fn csr_degree(g: &ColorGraph, u: usize) -> (r: usize)
    requires
        u < csr_adj(*g).len(),
    ensures
        r == csr_adj(*g)[u as int].len(),
{
    graph::prelude::UndirectedDegrees::degree(&g.csr, u)
}

/// Relies on the graph crate's `UndirectedNeighbors::neighbors`: an iterator
/// over the node's adjacency list, collected here into a vector.
#[verifier::external_body]
fn csr_neighbors(g: &ColorGraph, u: usize) -> (r: Vec<usize>)
    requires
        u < csr_adj(*g).len(),
    ensures
        r@ == csr_adj(*g)[u as int],
{
    graph::prelude::UndirectedNeighbors::neighbors(&g.csr, u).copied().collect()
}

/// Why a graph could not be built.
#[derive(Clone, Copy, PartialEq, Eq, Structural, Debug)]
pub enum GraphError {
    /// The graph would have no nodes.
    NoNodes,
    /// An edge names a node outside the graph, or joins a node to itself.
    BadEdge,
    /// A matrix row does not have one entry per node.
    BadRow,
}

/// Whether an ordered pair occurs in a vector of pairs.
fn contains_pair(v: &Vec<(usize, usize)>, e: (usize, usize)) -> (r: bool)
    ensures
        r == v@.contains(e),
{
    let mut k: usize = 0;
    let mut seen = false;
    while k < v.len()
        invariant
            k <= v@.len(),
            seen <==> exists|t: int| 0 <= t < k && v@[t] == e,
        decreases v@.len() - k,
    {
        let ck = v[k];
        if ck.0 == e.0 && ck.1 == e.1 {
            seen = true;
        }
        k += 1;
    }
    seen
}

impl ColorGraph {
    /// The adjacency lists: entry `u` holds the neighbors of node `u`.
    pub open spec fn adj(self) -> Seq<Seq<usize>> {
        csr_adj(self)
    }

    /// The graph's adjacency is well-formed; constructors establish this.
    pub open spec fn wf(self) -> bool {
        adj_wf(self.adj())
    }

    /// Build a graph over nodes 0 to n - 1 from an edge list. Edges may come
    /// in either orientation and repeatedly; each distinct pair joins its two
    /// nodes once. Fails on a graph with no nodes, on an edge out of range,
    /// and on a self loop.
    pub fn from_edges(n: usize, edges: &Vec<(usize, usize)>) -> (r: Result<ColorGraph, GraphError>)
        ensures
            n == 0 ==> r == Result::<ColorGraph, GraphError>::Err(GraphError::NoNodes),
            n > 0 && (exists|i: int|
                0 <= i < edges@.len() && ((#[trigger] edges@[i]).0 == edges@[i].1 || edges@[i].0
                    >= n || edges@[i].1 >= n)) ==> r == Result::<
                ColorGraph,
                GraphError,
            >::Err(GraphError::BadEdge),
            r is Ok ==> {
                let g = r->Ok_0;
                &&& g.wf()
                &&& g.adj().len() == n
                &&& forall|u: usize, v: usize|
                    u < n && v < n ==> (adjacent(g.adj(), u as int, v as int) <==> (
                    edges@.contains((u, v)) || edges@.contains((v, u))))
            },
            r is Ok <==> n > 0 && (forall|i: int|
                0 <= i < edges@.len() ==> (#[trigger] edges@[i]).0 != edges@[i].1 && edges@[i].0
                    < n && edges@[i].1 < n),
    {
        if n == 0 {
            return Err(GraphError::NoNodes);
        }
        let mut clean: Vec<(usize, usize)> = Vec::new();
        let mut i: usize = 0;
        while i < edges.len()
            invariant
                n > 0,
                i <= edges@.len(),
                forall|j: int|
                    0 <= j < i ==> (#[trigger] edges@[j]).0 != edges@[j].1 && edges@[j].0 < n
                        && edges@[j].1 < n,
                forall|k: int|
                    0 <= k < clean@.len() ==> (#[trigger] clean@[k]).0 < clean@[k].1
                        && clean@[k].1 < n,
                forall|k1: int, k2: int| 0 <= k1 < k2 < clean@.len() ==> clean@[k1] != clean@[k2],
                forall|k: int|
                    0 <= k < clean@.len() ==> (exists|j: int|
                        0 <= j < i && ((#[trigger] clean@[k]) == edges@[j] || clean@[k] == (
                        edges@[j].1,
                        edges@[j].0,
                        ))),
                forall|j: int|
                    0 <= j < i ==> (clean@.contains((
                        (#[trigger] edges@[j]).0,
                        edges@[j].1,
                    )) || clean@.contains((edges@[j].1, edges@[j].0))),
            decreases edges@.len() - i,
        {
            let (a, b) = edges[i];
            if a == b || a >= n || b >= n {
                return Err(GraphError::BadEdge);
            }
            let e: (usize, usize) = if a < b {
                (a, b)
            } else {
                (b, a)
            };
            let seen = contains_pair(&clean, e);
            if !seen {
                clean.push(e);
            }
            proof {
                assert(clean@.contains(e));
            }
            i += 1;
        }
        let g = csr_build(n, &clean);
        proof {
            assert forall|u: usize, v: usize| u < n && v < n implies (adjacent(
                g.adj(),
                u as int,
                v as int,
            ) <==> (edges@.contains((u, v)) || edges@.contains((v, u)))) by {
                if adjacent(g.adj(), u as int, v as int) {
                    assert(clean@.contains((u, v)) || clean@.contains((v, u)));
                }
                if edges@.contains((u, v)) {
                    let j = choose|j: int| 0 <= j < edges@.len() && edges@[j] == (u, v);
                    assert(clean@.contains((u, v)) || clean@.contains((v, u)));
                }
                if edges@.contains((v, u)) {
                    let j = choose|j: int| 0 <= j < edges@.len() && edges@[j] == (v, u);
                    assert(clean@.contains((u, v)) || clean@.contains((v, u)));
                }
                if clean@.contains((u, v)) || clean@.contains((v, u)) {
                    assert(g.adj()[u as int].contains(v));
                }
            }
            assert forall|u: int, v: int| adjacent(g.adj(), u, v) implies adjacent(
                g.adj(),
                v,
                u,
            ) by {
                let k = choose|k: int|
                    0 <= k < g.adj()[u].len() && g.adj()[u][k] == (v as usize);
                assert(g.adj()[u][k] < n && g.adj()[u][k] != u);
                let uu = u as usize;
                let vv = v as usize;
                assert(g.adj()[uu as int].contains(vv));
                assert(clean@.contains((uu, vv)) || clean@.contains((vv, uu)));
                assert(g.adj()[vv as int].contains(uu));
            }
        }
        Ok(g)
    }

    /// Build a graph from a square 0/1 adjacency matrix, one row of booleans
    /// per node. Two distinct nodes are joined when either of their two cells
    /// is set; the matrix need not be symmetric. Fails on an empty matrix, on
    /// a row whose length is not the node count, and on a set diagonal cell,
    /// which would be a self loop.
    pub fn from_matrix(rows: &Vec<Vec<bool>>) -> (r: Result<ColorGraph, GraphError>)
        ensures
            (r == Result::<ColorGraph, GraphError>::Err(GraphError::NoNodes)) <==> rows@.len()
                == 0,
            (r == Result::<ColorGraph, GraphError>::Err(GraphError::BadRow)) <==> (rows@.len() > 0
                && exists|i: int| 0 <= i < rows@.len() && (#[trigger] rows@[i])@.len()
                != rows@.len()),
            (r == Result::<ColorGraph, GraphError>::Err(GraphError::BadEdge)) <==> (rows@.len() > 0
                && (forall|i: int|
                0 <= i < rows@.len() ==> (#[trigger] rows@[i])@.len() == rows@.len()) && exists|
                i: int,
            | 0 <= i < rows@.len() && (#[trigger] rows@[i])@[i]),
            r is Ok ==> {
                let g = r->Ok_0;
                &&& g.wf()
                &&& g.adj().len() == rows@.len()
                &&& forall|u: usize, v: usize|
                    u < rows@.len() && v < rows@.len() ==> (adjacent(g.adj(), u as int, v as int)
                        <==> (u != v && (rows@[u as int]@[v as int] || rows@[v as int]@[u as int])))
            },
    {
        let n = rows.len();
        if n == 0 {
            return Err(GraphError::NoNodes);
        }
        let mut u: usize = 0;
        while u < n
            invariant
                u <= n,
                n == rows@.len(),
                forall|i: int| 0 <= i < u ==> (#[trigger] rows@[i])@.len() == n,
            decreases n - u,
        {
            if rows[u].len() != n {
                return Err(GraphError::BadRow);
            }
            u += 1;
        }
        let mut u: usize = 0;
        while u < n
            invariant
                u <= n,
                n == rows@.len(),
                forall|i: int| 0 <= i < n ==> (#[trigger] rows@[i])@.len() == n,
                forall|i: int| 0 <= i < u ==> !(#[trigger] rows@[i])@[i],
            decreases n - u,
        {
            if rows[u][u] {
                return Err(GraphError::BadEdge);
            }
            u += 1;
        }
        let mut edges: Vec<(usize, usize)> = Vec::new();
        let mut u: usize = 0;
        while u < n
            invariant
                u <= n,
                n == rows@.len(),
                forall|i: int| 0 <= i < n ==> (#[trigger] rows@[i])@.len() == n,
                forall|e: (usize, usize)|
                    #[trigger] edges@.contains(e) <==> (e.0 < u && e.0 < e.1 && e.1 < n && (rows@[e.0 as int]@[e.1 as int] || rows@[e.1 as int]@[e.0 as int])),
            decreases n - u,
        {
            let mut v: usize = u + 1;
            while v < n
                invariant
                    u < v <= n || (u + 1 > n && v == u + 1),
                    u < n,
                    n == rows@.len(),
                    forall|i: int| 0 <= i < n ==> (#[trigger] rows@[i])@.len() == n,
                    forall|e: (usize, usize)|
                        #[trigger] edges@.contains(e) <==> ((e.0 < u && e.0 < e.1 && e.1 < n && (
                        rows@[e.0 as int]@[e.1 as int] || rows@[e.1 as int]@[e.0 as int])) || (e.0
                            == u && u < e.1 < v && (rows@[e.0 as int]@[e.1 as int]
                            || rows@[e.1 as int]@[e.0 as int]))),
                decreases n - v,
            {
                let joined = rows[u][v] || rows[v][u];
                let ghost pre = edges@;
                if joined {
                    edges.push((u, v));
                }
                proof {
                    assert forall|e: (usize, usize)|
                        #[trigger] edges@.contains(e) <==> ((e.0 < u && e.0 < e.1 && e.1 < n && (
                        rows@[e.0 as int]@[e.1 as int] || rows@[e.1 as int]@[e.0 as int])) || (e.0
                            == u && u < e.1 < v + 1 && (rows@[e.0 as int]@[e.1 as int]
                            || rows@[e.1 as int]@[e.0 as int]))) by {
                        if edges@.contains(e) {
                            if pre.contains(e) {
                            } else {
                                let t = choose|t: int| 0 <= t < edges@.len() && edges@[t] == e;
                                assert(t == edges@.len() - 1);
                                assert(e == (u, v));
                            }
                        }
                        if (e.0 == u && u < e.1 < v + 1 && (rows@[e.0 as int]@[e.1 as int]
                            || rows@[e.1 as int]@[e.0 as int])) && e.1 == v {
                            assert(joined);
                            assert(edges@.last() == (u, v));
                            assert(edges@.contains((u, v)));
                        }
                    }
                }
                v += 1;
            }
            u += 1;
        }
        proof {
            assert forall|i: int|
                0 <= i < edges@.len() implies (#[trigger] edges@[i]).0 < edges@[i].1
                && edges@[i].1 < n by {
                let e = edges@[i];
                assert(edges@.contains(e));
            }
        }
        let built = Self::from_edges(n, &edges);
        let g = match built {
            Ok(g) => g,
            Err(_) => {
                proof {
                    assert(false);
                }
                return Err(GraphError::BadEdge);
            },
        };
        proof {
            assert forall|u: usize, v: usize| u < n && v < n implies (adjacent(
                g.adj(),
                u as int,
                v as int,
            ) <==> (u != v && (rows@[u as int]@[v as int] || rows@[v as int]@[u as int]))) by {
                assert(adjacent(g.adj(), u as int, v as int) <==> (edges@.contains((u, v))
                    || edges@.contains((v, u))));
            }
        }
        Ok(g)
    }

    /// The number of nodes.
    pub fn node_count(&self) -> (r: usize)
        ensures
            r == self.adj().len(),
    {
        csr_node_count(self)
    }

    /// The number of undirected edges.
    pub fn edge_count(&self) -> (r: usize)
        ensures
            r == adj_entry_count(self.adj()) / 2,
    {
        csr_edge_count(self)
    }

    /// The length of a node's neighbor list.
    pub fn degree(&self, u: usize) -> (r: usize)
        requires
            u < self.adj().len(),
        ensures
            r == self.adj()[u as int].len(),
    {
        csr_degree(self, u)
    }

    /// The node's neighbor list.
    pub fn neighbors(&self, u: usize) -> (r: Vec<usize>)
        requires
            u < self.adj().len(),
        ensures
            r@ == self.adj()[u as int],
    {
        csr_neighbors(self, u)
    }
}

} // verus!
