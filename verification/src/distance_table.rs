//! The best cumulative cost found so far for each node.

use crate::graph::{Graph, GraphView};
use std::collections::HashMap;
use vstd::prelude::*;

verus! {

/// The cost that stands for "not reached": no path that the search records
/// costs this much.
pub open spec fn infinity() -> usize {
    usize::MAX
}

/// The best cost that `table` knows for `node`.
pub open spec fn known_best(table: Map<usize, usize>, node: usize) -> usize {
    if table.contains_key(node) {
        table[node]
    } else {
        infinity()
    }
}

/// The table at the beginning of a search from `start`: 0 for `start`, and
/// "not reached" for every other node of the graph.
pub open spec fn initial_table(g: GraphView, start: usize) -> Map<usize, usize> {
    Map::new(
        |n: usize| g.nodes.contains(n) || n == start,
        |n: usize|
            if n == start {
                0usize
            } else {
                infinity()
            },
    )
}

/// The table after `candidate` was proposed for `node`: the entry changes
/// only if the candidate is strictly better than what was known.
pub open spec fn proposed(table: Map<usize, usize>, node: usize, candidate: usize) -> Map<
    usize,
    usize,
> {
    if candidate < known_best(table, node) {
        table.insert(node, candidate)
    } else {
        table
    }
}

/// For each node the best cumulative cost discovered so far.
pub struct DistanceTable {
    best: HashMap<usize, usize>,
}

impl View for DistanceTable {
    type V = Map<usize, usize>;

    closed spec fn view(&self) -> Map<usize, usize> {
        self.best@
    }
}

impl DistanceTable {
    /// The table for a search through `g` from `start`.
    pub fn for_search(g: &Graph, start: usize) -> (table: DistanceTable)
        ensures
            table@ == initial_table(g@, start),
    {
        let mut best: HashMap<usize, usize> = HashMap::new();
        let nodes = g.nodes();
        for node in it: nodes.iter()
            invariant
                it.seq().unref().to_set() == nodes@,
                forall|n: usize| best@.contains_key(n) ==> nodes@.contains(n) && best@[n] == infinity(),
                forall|j: int| 0 <= j < it.index() ==> best@.contains_key(*#[trigger] it.seq()[j]),
                it.index() == it.seq().len() ==> forall|n: usize|
                    nodes@.contains(n) ==> best@.contains_key(n),
        {
            best.insert(*node, usize::MAX);
            proof {
                assert(it.seq().unref()[it.index()] == *node);
                assert(it.seq().unref().to_set().contains(*node));
                assert forall|n: usize|
                    it.index() + 1 == it.seq().len() && nodes@.contains(n) implies best@.contains_key(
                    n,
                ) by {
                    assert(it.seq().unref().to_set().contains(n));
                    assert(it.seq().unref().contains(n));
                    assert(exists|j: int|
                        0 <= j < it.seq().len() && *(#[trigger] it.seq()[j]) == n) by {
                        assert(exists|j: int|
                            0 <= j < it.seq().unref().len() && #[trigger] it.seq().unref()[j]
                                == n);
                    }
                }
            }
        }
        best.insert(start, 0);
        proof {
            assert(best@ =~= initial_table(g@, start));
        }
        DistanceTable { best }
    }

    /// The best cost known for `node`.
    pub fn get(&self, node: usize) -> (cost: usize)
        ensures
            cost == known_best(self@, node),
    {
        match self.best.get(&node) {
            Some(cost) => *cost,
            None => usize::MAX,
        }
    }

    /// Proposes `candidate` as the cumulative cost of reaching `node`, and
    /// records it if it is strictly better than the best known. Returns
    /// whether it was.
    pub fn propose(&mut self, node: usize, candidate: usize) -> (improved: bool)
        ensures
            improved == (candidate < known_best(old(self)@, node)),
            final(self)@ == proposed(old(self)@, node, candidate),
    {
        if candidate < self.get(node) {
            self.best.insert(node, candidate);
            true
        } else {
            false
        }
    }
}

} // verus!
