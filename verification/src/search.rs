//! The cheapest route between two nodes of a graph.

use crate::distance_table::DistanceTable;
use crate::frontier::Frontier;
use crate::graph::Graph;
use crate::route::lemma_cost_not_negative;
use crate::search_invariant::{
    expanding, lemma_begin_expansion, lemma_end_expansion, lemma_exhausted, lemma_initial_state,
    lemma_next_step_unique, lemma_relax_keeps_expanding, lemma_settle, lemma_total_known_falls,
    searching, total_known,
};
use crate::search_model::{
    expand, initial_state, is_next, lemma_search_is_deterministic, lemma_search_to_itself, relax,
    relax_all, search_from, search_outcome, without, Outcome, SearchState,
};
use crate::step::Step;
use vstd::prelude::*;

verus! {

/// The outcome that a result of [`shortest_path`] stands for.
pub open spec fn outcome_of(result: Option<(Vec<usize>, usize)>) -> Outcome {
    match result {
        Some((path, cost)) => Outcome::Found { path: path@, cost },
        None => Outcome::Exhausted,
    }
}

/// Finds the cheapest route from `start` to `goal` and returns its nodes,
/// `start` first and `goal` last, with its cost; or `None` where no route
/// leads from `start` to `goal`.
///
/// A route whose cost does not lie below `usize::MAX` counts as no route.
/// Where several routes are equally cheap, the search settles which one is
/// returned: of two equally cheap candidates it always expands the one at
/// the smaller node first.
pub fn shortest_path(g: &Graph, start: usize, goal: usize) -> (result: Option<(Vec<usize>, usize)>)
    ensures
        outcome_of(result) == search_outcome(g@, start, goal),
        start == goal ==> outcome_of(result) == (Outcome::Found { path: seq![start], cost: 0 }),
        match result {
            Some((path, cost)) => {
                &&& g@.route(start, goal, path@, cost as int)
                &&& cost < usize::MAX
                &&& path@.no_duplicates()
                &&& forall|other: Seq<usize>, other_cost: int| #[trigger]
                    g@.route(start, goal, other, other_cost) ==> cost <= other_cost
            },
            None => !g@.reachable_below(start, goal, usize::MAX as int),
        },
        (forall|path: Seq<usize>, cost: int| !#[trigger] g@.route(start, goal, path, cost))
            ==> result is None,
{
    if start == goal {
        let mut path: Vec<usize> = Vec::new();
        path.push(start);
        proof {
            lemma_search_to_itself(g@, start);
            assert(path@ =~= seq![start]);
            assert(g@.connects(path@, 0));
            assert(g@.route(start, goal, path@, 0));
            assert forall|other: Seq<usize>, other_cost: int| #[trigger]
                g@.route(start, goal, other, other_cost) implies 0 <= other_cost by {
                lemma_cost_not_negative(g@, other, other_cost);
            }
        }
        return Some((path, 0));
    }
    proof {
        use_type_invariant(g);
    }
    let mut frontier = Frontier::new();
    let mut first: Vec<usize> = Vec::new();
    first.push(start);
    frontier.push(Step { cost: 0, position: start, history: first });
    let mut distances = DistanceTable::for_search(g, start);
    let ghost keys = g@.nodes.to_seq();
    let ghost beginning = initial_state(g@, start);
    let ghost mut settled: Set<usize> = Set::empty();
    let ghost mut expansions: nat = 0;
    proof {
        g@.nodes.lemma_to_seq_to_set_id();
        assert(first@ =~= seq![start]);
        assert(frontier@ =~= beginning.frontier);
        lemma_initial_state(g@, start, goal);
    }
    loop
        invariant
            g@.well_formed(),
            start != goal,
            beginning == initial_state(g@, start),
            keys.to_set() == g@.nodes,
            searching(
                g@,
                start,
                goal,
                (SearchState { frontier: frontier@, best: distances@ }),
                settled,
            ),
            forall|fuel: nat|
                search_from(g@, goal, beginning, expansions + fuel) == #[trigger] search_from(
                    g@,
                    goal,
                    (SearchState { frontier: frontier@, best: distances@ }),
                    fuel,
                ),
        decreases total_known(keys, distances@), frontier@.len(),
    {
        let ghost state = SearchState { frontier: frontier@, best: distances@ };
        let step = match frontier.pop() {
            Some(step) => step,
            None => {
                proof {
                    lemma_exhausted(g@, start, goal, state, settled);
                    assert(search_from(g@, goal, state, 0) == Some(Outcome::Exhausted));
                    assert(search_from(g@, goal, beginning, expansions + 0) == Some(
                        Outcome::Exhausted,
                    ));
                    lemma_search_is_deterministic(g@, start, goal, expansions, expansions);
                }
                return None;
            },
        };
        proof {
            assert(state.frontier.count(step@) > 0);
            assert(is_next(state.frontier, step@));
            lemma_next_step_unique(state.frontier, step@);
            assert(state.frontier.count(step@) <= state.frontier.len());
        }
        if step.position == goal {
            proof {
                lemma_settle(g@, start, goal, state, settled, step@);
                assert(search_from(g@, goal, state, 0) == Some(
                    Outcome::Found { path: step@.history, cost: step@.cost },
                ));
                assert(search_from(g@, goal, beginning, expansions + 0) == search_from(
                    g@,
                    goal,
                    state,
                    0,
                ));
                lemma_search_is_deterministic(g@, start, goal, expansions, expansions);
            }
            return Some((step.history, step.cost));
        }
        let ghost popped = without(state, step@);
        proof {
            lemma_begin_expansion(g@, start, goal, state, settled, step@);
            settled = settled.insert(step@.position);
            assert(frontier@ == popped.frontier);
        }
        match g.edges_from(step.position) {
            Some(edges) => {
                for done in 0..edges.len()
                    invariant
                        g@.adjacency.contains_key(step@.position),
                        edges@ == g@.adjacency[step@.position],
                        keys.to_set() == g@.nodes,
                        (SearchState { frontier: frontier@, best: distances@ }) == relax_all(
                            popped,
                            step@,
                            edges@.take(done as int),
                        ),
                        expanding(
                            g@,
                            start,
                            goal,
                            (SearchState { frontier: frontier@, best: distances@ }),
                            settled,
                            step@,
                            done as int,
                        ),
                        total_known(keys, distances@) < total_known(keys, popped.best) || (
                        total_known(keys, distances@) == total_known(keys, popped.best)
                            && frontier@ == popped.frontier),
                {
                    let ghost before = SearchState { frontier: frontier@, best: distances@ };
                    let (next_node, next_cost) = edges[done];
                    proof {
                        lemma_relax_keeps_expanding(
                            g@,
                            start,
                            goal,
                            before,
                            settled,
                            step@,
                            done as int,
                        );
                        assert(edges@.take(done + 1).drop_last() =~= edges@.take(done as int));
                        assert(edges@.take(done + 1).last() == edges@[done as int]);
                        assert(keys.to_set().contains(next_node));
                    }
                    if let Some(candidate) = step.cost.checked_add(next_cost) {
                        if distances.propose(next_node, candidate) {
                            let mut history = step.history.clone();
                            history.push(next_node);
                            proof {
                                assert(history@ =~= step@.history.push(next_node));
                                lemma_total_known_falls(keys, before.best, next_node, candidate);
                            }
                            frontier.push(Step { cost: candidate, position: next_node, history });
                        }
                    }
                    proof {
                        assert((SearchState { frontier: frontier@, best: distances@ }) == relax(
                            before,
                            step@,
                            edges@[done as int],
                        ));
                    }
                }
                proof {
                    assert(edges@.take(edges@.len() as int) =~= edges@);
                    lemma_end_expansion(
                        g@,
                        start,
                        goal,
                        (SearchState { frontier: frontier@, best: distances@ }),
                        settled,
                        step@,
                        edges@.len() as int,
                    );
                }
            },
            None => {
                proof {
                    lemma_end_expansion(g@, start, goal, popped, settled, step@, 0);
                }
            },
        }
        proof {
            let now = SearchState { frontier: frontier@, best: distances@ };
            assert(now == expand(g@, popped, step@));
            assert forall|fuel: nat|
                search_from(g@, goal, beginning, expansions + 1 + fuel) == #[trigger] search_from(
                    g@,
                    goal,
                    now,
                    fuel,
                ) by {
                assert(search_from(g@, goal, beginning, expansions + (fuel + 1) as nat)
                    == search_from(g@, goal, state, (fuel + 1) as nat));
                assert(search_from(g@, goal, state, (fuel + 1) as nat) == search_from(
                    g@,
                    goal,
                    now,
                    fuel,
                ));
            }
            expansions = expansions + 1;
        }
    }
}

} // verus!
