use vstd::prelude::*;
use petgraph::graph::NodeIndex;
use petgraph::matrix_graph::DiMatrix;

verus! {

/// A path through `edges`: consecutive nodes are joined by an edge. A single node is a path.
pub open spec fn is_path(edges: Set<(int, int)>, p: Seq<int>) -> bool {
    &&& p.len() >= 1
    &&& forall|i: int| 0 <= i < p.len() - 1 ==> edges.contains((#[trigger] p[i], p[i + 1]))
}

/// Some path through `edges` leads from `a` to `b`.
pub open spec fn connected(edges: Set<(int, int)>, a: int, b: int) -> bool {
    exists|p: Seq<int>| #[trigger] is_path(edges, p) && p[0] == a && p.last() == b
}

/// The edges of a direct-reachability matrix over `n` nodes.
pub open spec fn matrix_edges(direct: Seq<Vec<bool>>) -> Set<(int, int)> {
    Set::new(|p: (int, int)| 0 <= p.0 < direct.len() && 0 <= p.1 < direct.len() && direct[p.0]@[p.1])
}

/// Node `to` is reached from every one of the `n` nodes.
pub open spec fn in_seed(edges: Set<(int, int)>, n: int, to: int) -> bool {
    forall|from: int| 0 <= from < n ==> #[trigger] connected(edges, from, to)
}

/// A directed graph over state numbers, kept in petgraph's adjacency matrix.
#[verifier::external_body]
pub struct StateGraph {
    graph: DiMatrix<(), ()>,
}

/// Number of nodes of a state graph.
pub uninterp spec fn state_graph_nodes(g: StateGraph) -> nat;

/// Edges of a state graph, as pairs of node numbers.
pub uninterp spec fn state_graph_edges(g: StateGraph) -> Set<(int, int)>;

impl StateGraph {
    /// Relies on `MatrixGraph::with_capacity`: a graph with no nodes and no edges.
    #[verifier::external_body]
    fn with_capacity(node_capacity: usize) -> (r: StateGraph)
        requires
            node_capacity <= u32::MAX,
        ensures
            state_graph_nodes(r) == 0,
            state_graph_edges(r) == Set::<(int, int)>::empty(),
    {
        StateGraph { graph: DiMatrix::with_capacity(node_capacity) }
    }

    /// Relies on `MatrixGraph::add_node`: with no node ever removed, the new node is numbered
    /// after the existing ones.
    #[verifier::external_body]
    fn add_node(&mut self) -> (r: usize)
        requires
            state_graph_nodes(*old(self)) < u32::MAX,
        ensures
            r == state_graph_nodes(*old(self)),
            state_graph_nodes(*final(self)) == state_graph_nodes(*old(self)) + 1,
            state_graph_edges(*final(self)) == state_graph_edges(*old(self)),
    {
        self.graph.add_node(()).index()
    }

    /// Relies on `MatrixGraph::update_edge`: the edge from `a` to `b` is present afterwards,
    /// whether or not it was before.
    #[verifier::external_body]
    fn update_edge(&mut self, a: usize, b: usize)
        requires
            a < state_graph_nodes(*old(self)),
            b < state_graph_nodes(*old(self)),
        ensures
            state_graph_nodes(*final(self)) == state_graph_nodes(*old(self)),
            state_graph_edges(*final(self)) == state_graph_edges(*old(self)).insert((a as int, b as int)),
    {
        self.graph.update_edge(NodeIndex::new(a), NodeIndex::new(b), ());
    }

    /// Relies on `petgraph::algo::has_path_connecting`: whether a path leads from `a` to `b`
    /// (always so when they are equal).
    #[verifier::external_body]
    fn has_path_connecting(&self, a: usize, b: usize) -> (r: bool)
        requires
            a < state_graph_nodes(*self),
            b < state_graph_nodes(*self),
        ensures
            r == connected(state_graph_edges(*self), a as int, b as int),
    {
        petgraph::algo::has_path_connecting(&self.graph, NodeIndex::new(a), NodeIndex::new(b), None)
    }
}

/// The states that every state reaches through the direct-reachability matrix `direct`: the
/// ones that can be assumed reachable without locking the player out of any other.
pub fn closure_seed(direct: &Vec<Vec<bool>>) -> (seed: Vec<bool>)
    requires
        direct@.len() < u32::MAX,
        forall|a: int| 0 <= a < direct@.len() ==> (#[trigger] direct@[a])@.len() == direct@.len(),
    ensures
        seed@.len() == direct@.len(),
        forall|to: int| 0 <= to < direct@.len() ==> #[trigger] seed@[to] == in_seed(matrix_edges(direct@), direct@.len() as int, to),
{
    let n = direct.len();
    let mut graph = StateGraph::with_capacity(n);
    let mut i: usize = 0;
    while i < n
        invariant
            n == direct@.len(),
            n < u32::MAX,
            i <= n,
            state_graph_nodes(graph) == i,
            state_graph_edges(graph) == Set::<(int, int)>::empty(),
        decreases n - i,
    {
        graph.add_node();
        i += 1;
    }
    let mut a: usize = 0;
    while a < n
        invariant
            n == direct@.len(),
            forall|x: int| 0 <= x < direct@.len() ==> (#[trigger] direct@[x])@.len() == direct@.len(),
            a <= n,
            state_graph_nodes(graph) == n,
            forall|p: (int, int)| #[trigger] state_graph_edges(graph).contains(p) <==> (0 <= p.0 < a && 0 <= p.1 < n && direct@[p.0]@[p.1]),
        decreases n - a,
    {
        let mut b: usize = 0;
        while b < n
            invariant
                n == direct@.len(),
                forall|x: int| 0 <= x < direct@.len() ==> (#[trigger] direct@[x])@.len() == direct@.len(),
                a < n,
                b <= n,
                state_graph_nodes(graph) == n,
                forall|p: (int, int)| #[trigger] state_graph_edges(graph).contains(p) <==> ((0 <= p.0 < a && 0 <= p.1 < n) || (p.0 == a && 0 <= p.1 < b)) && direct@[p.0]@[p.1],
            decreases n - b,
        {
            if direct[a][b] {
                graph.update_edge(a, b);
            }
            b += 1;
        }
        a += 1;
    }
    assert(state_graph_edges(graph) =~= matrix_edges(direct@));
    let mut seed: Vec<bool> = Vec::new();
    let mut to: usize = 0;
    while to < n
        invariant
            n == direct@.len(),
            to <= n,
            state_graph_nodes(graph) == n,
            state_graph_edges(graph) == matrix_edges(direct@),
            seed@.len() == to,
            forall|t: int| 0 <= t < to ==> #[trigger] seed@[t] == in_seed(matrix_edges(direct@), n as int, t),
        decreases n - to,
    {
        let mut all = true;
        let mut from: usize = 0;
        while from < n
            invariant
                n == direct@.len(),
                to < n,
                from <= n,
                state_graph_nodes(graph) == n,
                state_graph_edges(graph) == matrix_edges(direct@),
                all == forall|f: int| 0 <= f < from ==> #[trigger] connected(matrix_edges(direct@), f, to as int),
            decreases n - from,
        {
            if !graph.has_path_connecting(from, to) {
                all = false;
            }
            from += 1;
        }
        seed.push(all);
        to += 1;
    }
    seed
}

/// Every state of the seed reaches every other state of the seed, both ways.
pub proof fn lemma_seed_mutually_reachable(edges: Set<(int, int)>, n: int, a: int, b: int)
    requires
        0 <= a < n,
        0 <= b < n,
        in_seed(edges, n, a),
        in_seed(edges, n, b),
    ensures
        connected(edges, a, b),
        connected(edges, b, a),
{
    assert(connected(edges, a, b));
    assert(connected(edges, b, a));
}

} // verus!
