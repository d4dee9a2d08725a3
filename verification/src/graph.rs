//! A weighted directed graph, built once from a list of edges.

use std::collections::HashMap;
use std::collections::HashSet;
use vstd::prelude::*;

verus! {

/// The mathematical value of a [`Graph`]: its nodes, and for each node that
/// has outgoing edges their `(destination, cost)` pairs in the order given.
pub struct GraphView {
    pub nodes: Set<usize>,
    pub adjacency: Map<usize, Seq<(usize, usize)>>,
}

impl GraphView {
    /// There is an edge from `from` to `to` that costs `cost`.
    pub open spec fn has_edge(self, from: usize, to: usize, cost: usize) -> bool {
        self.adjacency.contains_key(from) && self.adjacency[from].contains((to, cost))
    }

    /// Both ends of every edge are nodes of the graph.
    pub open spec fn well_formed(self) -> bool {
        &&& self.nodes.finite()
        &&& forall|from: usize| #[trigger]
            self.adjacency.contains_key(from) ==> self.nodes.contains(from)
        &&& forall|from: usize, i: int|
            self.adjacency.contains_key(from) && 0 <= i < self.adjacency[from].len()
                ==> self.nodes.contains((#[trigger] self.adjacency[from][i]).0)
    }
}

/// The `(destination, cost)` pairs of the edges that leave `source`, in the
/// order in which `edges` lists them.
pub open spec fn outgoing(edges: Seq<(usize, usize, usize)>, source: usize) -> Seq<(usize, usize)>
    decreases edges.len(),
{
    if edges.len() == 0 {
        Seq::empty()
    } else {
        let earlier = outgoing(edges.drop_last(), source);
        let edge = edges.last();
        if edge.0 == source {
            earlier.push((edge.1, edge.2))
        } else {
            earlier
        }
    }
}

/// Some edge of `edges` leaves `node`.
pub open spec fn is_source(edges: Seq<(usize, usize, usize)>, node: usize) -> bool {
    exists|i: int| 0 <= i < edges.len() && (#[trigger] edges[i]).0 == node
}

/// Some edge of `edges` leaves or enters `node`.
pub open spec fn is_endpoint(edges: Seq<(usize, usize, usize)>, node: usize) -> bool {
    exists|i: int|
        0 <= i < edges.len() && ((#[trigger] edges[i]).0 == node || edges[i].1 == node)
}

/// The graph that a list of `(source, destination, cost)` edges describes.
/// Parallel edges are all kept.
pub open spec fn graph_of(edges: Seq<(usize, usize, usize)>) -> GraphView {
    GraphView {
        nodes: Set::new(|n: usize| is_endpoint(edges, n)),
        adjacency: Map::new(|s: usize| is_source(edges, s), |s: usize| outgoing(edges, s)),
    }
}

/// A node that no edge leaves has no outgoing pairs.
pub proof fn lemma_outgoing_of_non_source(edges: Seq<(usize, usize, usize)>, node: usize)
    requires
        !is_source(edges, node),
    ensures
        outgoing(edges, node) == Seq::<(usize, usize)>::empty(),
    decreases edges.len(),
{
    if edges.len() > 0 {
        let earlier = edges.drop_last();
        assert(edges.last() == edges[edges.len() - 1]);
        assert forall|i: int| 0 <= i < earlier.len() implies (#[trigger] earlier[i]).0 != node by {
            assert(earlier[i] == edges[i]);
        }
        lemma_outgoing_of_non_source(earlier, node);
    }
}

/// Every outgoing pair of a node comes from an edge of the list.
pub proof fn lemma_outgoing_from_edges(edges: Seq<(usize, usize, usize)>, node: usize, i: int)
    requires
        0 <= i < outgoing(edges, node).len(),
    ensures
        edges.contains((node, outgoing(edges, node)[i].0, outgoing(edges, node)[i].1)),
    decreases edges.len(),
{
    if edges.len() > 0 {
        let earlier = edges.drop_last();
        let edge = edges.last();
        if edge.0 == node && i == outgoing(earlier, node).len() {
            assert(edges[edges.len() - 1] == edge);
        } else {
            lemma_outgoing_from_edges(earlier, node, i);
            let pair = outgoing(earlier, node)[i];
            let j = choose|j: int| 0 <= j < earlier.len() && earlier[j] == (node, pair.0, pair.1);
            assert(edges[j] == earlier[j]);
        }
    }
}

/// Every edge of the list is an outgoing pair of its source.
pub proof fn lemma_edges_in_outgoing(edges: Seq<(usize, usize, usize)>, j: int)
    requires
        0 <= j < edges.len(),
    ensures
        outgoing(edges, edges[j].0).contains((edges[j].1, edges[j].2)),
    decreases edges.len(),
{
    let earlier = edges.drop_last();
    let edge = edges.last();
    let node = edges[j].0;
    if j == edges.len() - 1 {
        let all = outgoing(edges, node);
        assert(all[all.len() - 1] == (edge.1, edge.2));
    } else {
        assert(earlier[j] == edges[j]);
        lemma_edges_in_outgoing(earlier, j);
        let before = outgoing(earlier, node);
        let k = choose|k: int| 0 <= k < before.len() && before[k] == (edges[j].1, edges[j].2);
        assert(outgoing(edges, node)[k] == before[k]);
    }
}

/// Both ends of every edge of the list are nodes of its graph, also where
/// no edge leaves them, and the edge itself is among those of its source.
pub proof fn lemma_edge_in_graph(edges: Seq<(usize, usize, usize)>, i: int)
    requires
        0 <= i < edges.len(),
    ensures
        graph_of(edges).nodes.contains(edges[i].0),
        graph_of(edges).nodes.contains(edges[i].1),
        graph_of(edges).has_edge(edges[i].0, edges[i].1, edges[i].2),
{
    assert(is_endpoint(edges, edges[i].0));
    assert(is_endpoint(edges, edges[i].1));
    assert(is_source(edges, edges[i].0));
    lemma_edges_in_outgoing(edges, i);
}

/// The graph of any edge list has both ends of every edge among its nodes.
pub proof fn lemma_graph_of_well_formed(edges: Seq<(usize, usize, usize)>)
    ensures
        graph_of(edges).well_formed(),
{
    let g = graph_of(edges);
    assert forall|from: usize| #[trigger] g.adjacency.contains_key(from) implies g.nodes.contains(
        from,
    ) by {
        let i = choose|i: int| 0 <= i < edges.len() && (#[trigger] edges[i]).0 == from;
        assert(edges[i].0 == from || edges[i].1 == from);
    }
    assert forall|from: usize, i: int|
        g.adjacency.contains_key(from) && 0 <= i < g.adjacency[from].len() implies g.nodes.contains(
        (#[trigger] g.adjacency[from][i]).0,
    ) by {
        lemma_outgoing_from_edges(edges, from, i);
        let pair = outgoing(edges, from)[i];
        let j = choose|j: int| 0 <= j < edges.len() && edges[j] == (from, pair.0, pair.1);
        assert(edges[j].0 == pair.0 || edges[j].1 == pair.0);
    }
    lemma_endpoints_finite(edges);
}

/// Finitely many nodes are an end of some edge.
proof fn lemma_endpoints_finite(edges: Seq<(usize, usize, usize)>)
    ensures
        Set::new(|n: usize| is_endpoint(edges, n)).finite(),
    decreases edges.len(),
{
    let all = Set::new(|n: usize| is_endpoint(edges, n));
    if edges.len() == 0 {
        assert(all =~= Set::<usize>::empty());
    } else {
        let earlier = edges.drop_last();
        let edge = edges.last();
        lemma_endpoints_finite(earlier);
        let before = Set::new(|n: usize| is_endpoint(earlier, n));
        assert forall|n: usize| all.contains(n) <==> before.insert(edge.0).insert(edge.1).contains(
            n,
        ) by {
            if all.contains(n) {
                let i = choose|i: int|
                    0 <= i < edges.len() && ((#[trigger] edges[i]).0 == n || edges[i].1 == n);
                if i < earlier.len() {
                    assert(earlier[i] == edges[i]);
                }
            }
            if before.contains(n) {
                let i = choose|i: int|
                    0 <= i < earlier.len() && ((#[trigger] earlier[i]).0 == n || earlier[i].1
                        == n);
                assert(edges[i] == earlier[i]);
            }
            if n == edge.0 || n == edge.1 {
                assert(edges[edges.len() - 1] == edge);
            }
        }
        assert(all =~= before.insert(edge.0).insert(edge.1));
    }
}

/// The value of an adjacency table.
pub open spec fn adjacency_view(table: Map<usize, Vec<(usize, usize)>>) -> Map<
    usize,
    Seq<(usize, usize)>,
> {
    Map::new(|s: usize| table.contains_key(s), |s: usize| table[s]@)
}

/// An immutable weighted directed graph: a set of nodes and, for each node
/// with outgoing edges, the list of its `(destination, cost)` pairs.
pub struct Graph {
    edges: HashMap<usize, Vec<(usize, usize)>>,
    nodes: HashSet<usize>,
}

impl View for Graph {
    type V = GraphView;

    closed spec fn view(&self) -> GraphView {
        GraphView { nodes: self.nodes@, adjacency: adjacency_view(self.edges@) }
    }
}

impl Graph {
    #[verifier::type_invariant]
    pub open spec fn closed_under_edges(self) -> bool {
        self@.well_formed()
    }

    /// Builds the graph of `edge_list`: each edge's `(destination, cost)` is
    /// appended to the list of its source, in input order, and both of its
    /// ends become nodes.
    pub fn from_edge_list(edge_list: &Vec<(usize, usize, usize)>) -> (g: Graph)
        ensures
            g@ == graph_of(edge_list@),
            g@.well_formed(),
    {
        let mut adjacency_list: HashMap<usize, Vec<(usize, usize)>> = HashMap::new();
        let mut nodes: HashSet<usize> = HashSet::new();
        proof {
            let empty = graph_of(edge_list@.take(0));
            assert(nodes@ =~= empty.nodes);
            assert(adjacency_view(adjacency_list@) =~= empty.adjacency);
        }
        for i in 0..edge_list.len()
            invariant
                nodes@ == graph_of(edge_list@.take(i as int)).nodes,
                adjacency_view(adjacency_list@) == graph_of(edge_list@.take(i as int)).adjacency,
        {
            let (source, destination, cost) = edge_list[i];
            let ghost before = adjacency_list@;
            let ghost seen = edge_list@.take(i as int);
            let ghost now = edge_list@.take(i + 1);
            let destinations = adjacency_list.entry(source).or_insert(Vec::new());
            destinations.push((destination, cost));
            nodes.insert(source);
            nodes.insert(destination);
            proof {
                assert(now.drop_last() =~= seen);
                assert(now.last() == (source, destination, cost));
                assert(now[i as int] == (source, destination, cost));
                assert forall|n: usize| is_endpoint(now, n) <==> is_endpoint(seen, n) || n
                    == source || n == destination by {
                    if is_endpoint(now, n) {
                        let j = choose|j: int|
                            0 <= j < now.len() && ((#[trigger] now[j]).0 == n || now[j].1 == n);
                        if j < i {
                            assert(seen[j] == now[j]);
                        }
                    }
                    if is_endpoint(seen, n) {
                        let j = choose|j: int|
                            0 <= j < seen.len() && ((#[trigger] seen[j]).0 == n || seen[j].1
                                == n);
                        assert(now[j] == seen[j]);
                    }
                }
                assert(nodes@ =~= graph_of(now).nodes);
                assert forall|s: usize| is_source(now, s) <==> is_source(seen, s) || s
                    == source by {
                    if is_source(now, s) {
                        let j = choose|j: int| 0 <= j < now.len() && (#[trigger] now[j]).0 == s;
                        if j < i {
                            assert(seen[j] == now[j]);
                        }
                    }
                    if is_source(seen, s) {
                        let j = choose|j: int| 0 <= j < seen.len() && (#[trigger] seen[j]).0 == s;
                        assert(now[j] == seen[j]);
                    }
                }
                if !is_source(seen, source) {
                    lemma_outgoing_of_non_source(seen, source);
                    assert(!adjacency_view(before).contains_key(source));
                } else {
                    assert(adjacency_view(before).contains_key(source));
                    assert(adjacency_view(before)[source] == outgoing(seen, source));
                }
                assert forall|s: usize| is_source(now, s) implies adjacency_view(
                    adjacency_list@,
                )[s] == outgoing(now, s) by {
                    if s != source {
                        assert(adjacency_view(before).contains_key(s));
                        assert(adjacency_view(before)[s] == outgoing(seen, s));
                    }
                }
                assert forall|s: usize|
                    adjacency_view(adjacency_list@).contains_key(s) <==> is_source(now, s) by {
                    assert(adjacency_view(before).contains_key(s) <==> is_source(seen, s));
                    assert(adjacency_list@.contains_key(s) <==> before.contains_key(s) || s
                        == source);
                }
                assert(adjacency_view(adjacency_list@) =~= graph_of(now).adjacency);
            }
        }
        proof {
            assert(edge_list@.take(edge_list@.len() as int) =~= edge_list@);
            lemma_graph_of_well_formed(edge_list@);
        }
        Graph { edges: adjacency_list, nodes }
    }

    /// The nodes of the graph.
    pub fn nodes(&self) -> (nodes: &HashSet<usize>)
        ensures
            nodes@ == self@.nodes,
    {
        &self.nodes
    }

    /// Whether `node` is a node of the graph.
    pub fn contains_node(&self, node: usize) -> (b: bool)
        ensures
            b == self@.nodes.contains(node),
    {
        self.nodes.contains(&node)
    }

    /// The `(destination, cost)` pairs of the edges that leave `node`, in the
    /// order in which they were given, if there are any.
    pub fn edges_from(&self, node: usize) -> (edges: Option<&Vec<(usize, usize)>>)
        ensures
            match edges {
                Some(list) => self@.adjacency.contains_key(node) && list@ == self@.adjacency[node],
                None => !self@.adjacency.contains_key(node),
            },
    {
        self.edges.get(&node)
    }
}

} // verus!
