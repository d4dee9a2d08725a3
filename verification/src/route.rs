//! Routes through a graph and what they cost.

use crate::graph::GraphView;
use vstd::prelude::*;

verus! {

impl GraphView {
    /// `path` is a sequence of nodes in which each node is joined to the next
    /// by an edge of the graph, and the costs of the edges taken add up to
    /// `cost`. Among parallel edges any one may be taken. A single node is a
    /// path of cost 0.
    pub open spec fn connects(self, path: Seq<usize>, cost: int) -> bool
        decreases path.len(),
    {
        if path.len() == 0 {
            false
        } else if path.len() == 1 {
            cost == 0
        } else {
            exists|hop: usize|
                #![trigger self.has_edge(path[path.len() - 2], path.last(), hop)]
                self.has_edge(path[path.len() - 2], path.last(), hop) && self.connects(
                    path.drop_last(),
                    cost - hop,
                )
        }
    }

    /// `path` leads from `from` to `to` along edges of the graph, at a total
    /// cost of `cost`.
    pub open spec fn route(self, from: usize, to: usize, path: Seq<usize>, cost: int) -> bool {
        &&& path.len() > 0
        &&& path.first() == from
        &&& path.last() == to
        &&& self.connects(path, cost)
    }

    /// Some route leads from `from` to `to` at a cost below `bound`.
    pub open spec fn reachable_below(self, from: usize, to: usize, bound: int) -> bool {
        exists|path: Seq<usize>, cost: int| #[trigger]
            self.route(from, to, path, cost) && cost < bound
    }
}

/// A route never costs less than nothing.
pub proof fn lemma_cost_not_negative(g: GraphView, path: Seq<usize>, cost: int)
    requires
        g.connects(path, cost),
    ensures
        cost >= 0,
    decreases path.len(),
{
    if path.len() > 1 {
        let hop = choose|hop: usize|
            #![trigger g.has_edge(path[path.len() - 2], path.last(), hop)]
            g.has_edge(path[path.len() - 2], path.last(), hop) && g.connects(
                path.drop_last(),
                cost - hop,
            );
        lemma_cost_not_negative(g, path.drop_last(), cost - hop);
    }
}

/// A route followed by one more edge is a route, and costs that edge more.
pub proof fn lemma_extend_route(
    g: GraphView,
    from: usize,
    path: Seq<usize>,
    cost: int,
    next: usize,
    hop: usize,
)
    requires
        path.len() > 0,
        g.route(from, path.last(), path, cost),
        g.has_edge(path.last(), next, hop),
    ensures
        g.route(from, next, path.push(next), cost + hop),
{
    let longer = path.push(next);
    assert(longer.drop_last() =~= path);
    assert(longer[longer.len() - 2] == path.last());
    assert(longer.last() == next);
    assert(g.has_edge(longer[longer.len() - 2], longer.last(), hop));
    assert(g.connects(longer.drop_last(), cost + hop - hop));
}

} // verus!
