//! The search, step by step, as a mathematical function.
//!
//! A search holds a frontier of candidate steps and the best cost known for
//! each node. It takes up the step that precedes all the others, stops if
//! that step stands at the goal, and otherwise follows each edge that leaves
//! the step's node, in the order of the adjacency list. It ends in one of two
//! ways: the goal was found, or the frontier is exhausted.

use crate::distance_table::{initial_table, known_best};
use crate::graph::GraphView;
use crate::step::StepView;
use vstd::multiset::Multiset;
use vstd::prelude::*;

verus! {

/// What a search holds between two steps.
pub struct SearchState {
    pub frontier: Multiset<StepView>,
    pub best: Map<usize, usize>,
}

/// How a search ends.
pub enum Outcome {
    /// The goal was taken from the frontier, with this path and cost.
    Found { path: Seq<usize>, cost: usize },
    /// The frontier ran empty before the goal was reached.
    Exhausted,
}

/// The step a search begins with: at `start`, at no cost.
pub open spec fn first_step(start: usize) -> StepView {
    StepView { cost: 0, position: start, history: seq![start] }
}

/// The state in which a search from `start` begins.
pub open spec fn initial_state(g: GraphView, start: usize) -> SearchState {
    SearchState {
        frontier: Multiset::singleton(first_step(start)),
        best: initial_table(g, start),
    }
}

/// The step that follows `from` along an edge to `to` at a cumulative cost of
/// `cost`.
pub open spec fn next_step_along(from: StepView, to: usize, cost: usize) -> StepView {
    StepView { cost, position: to, history: from.history.push(to) }
}

/// Relaxes one edge `(destination, cost)` that leaves the node of `from`: if
/// the cumulative cost through `from` is strictly below the best known for
/// the destination, that cost is recorded and a step is added.
pub open spec fn relax(state: SearchState, from: StepView, edge: (usize, usize)) -> SearchState {
    let candidate = from.cost + edge.1;
    if candidate < known_best(state.best, edge.0) {
        SearchState {
            frontier: state.frontier.insert(next_step_along(from, edge.0, candidate as usize)),
            best: state.best.insert(edge.0, candidate as usize),
        }
    } else {
        state
    }
}

/// Relaxes `edges` one after the other, first to last.
pub open spec fn relax_all(state: SearchState, from: StepView, edges: Seq<(usize, usize)>)
    -> SearchState
    decreases edges.len(),
{
    if edges.len() == 0 {
        state
    } else {
        relax(relax_all(state, from, edges.drop_last()), from, edges.last())
    }
}

/// Relaxes every edge that leaves the node of `from`.
pub open spec fn expand(g: GraphView, state: SearchState, from: StepView) -> SearchState {
    if g.adjacency.contains_key(from.position) {
        relax_all(state, from, g.adjacency[from.position])
    } else {
        state
    }
}

/// `step` is in `frontier` and precedes every step in it.
pub open spec fn is_next(frontier: Multiset<StepView>, step: StepView) -> bool {
    &&& frontier.count(step) > 0
    &&& forall|other: StepView| #[trigger] frontier.count(other) > 0 ==> step.precedes(other)
}

/// The step that a non-empty frontier yields.
pub open spec fn next_step(frontier: Multiset<StepView>) -> StepView {
    choose|step: StepView| is_next(frontier, step)
}

/// `state` without `step` in its frontier.
pub open spec fn without(state: SearchState, step: StepView) -> SearchState {
    SearchState { frontier: state.frontier.remove(step), best: state.best }
}

/// Runs the search from `state` for at most `fuel` expansions. `None` means
/// that the search had not ended by then.
pub open spec fn search_from(g: GraphView, goal: usize, state: SearchState, fuel: nat) -> Option<
    Outcome,
>
    decreases fuel,
{
    if state.frontier.len() == 0 {
        Some(Outcome::Exhausted)
    } else {
        let step = next_step(state.frontier);
        if step.position == goal {
            Some(Outcome::Found { path: step.history, cost: step.cost })
        } else if fuel == 0 {
            None
        } else {
            search_from(g, goal, expand(g, without(state, step), step), (fuel - 1) as nat)
        }
    }
}

/// Searches for `goal` from `start` for at most `fuel` expansions. A search
/// from a node to itself ends at once.
pub open spec fn search_within(g: GraphView, start: usize, goal: usize, fuel: nat) -> Option<
    Outcome,
> {
    if start == goal {
        Some(Outcome::Found { path: seq![start], cost: 0 })
    } else {
        search_from(g, goal, initial_state(g, start), fuel)
    }
}

/// How the search for `goal` from `start` ends.
pub open spec fn search_outcome(g: GraphView, start: usize, goal: usize) -> Outcome {
    let fuel = choose|fuel: nat| search_within(g, start, goal, fuel) is Some;
    match search_within(g, start, goal, fuel) {
        Some(outcome) => outcome,
        None => Outcome::Exhausted,
    }
}

/// A search that has ended within some number of expansions ends in the same
/// way within any other number that suffices.
pub proof fn lemma_search_from_settles(
    g: GraphView,
    goal: usize,
    state: SearchState,
    fuel_a: nat,
    fuel_b: nat,
)
    requires
        search_from(g, goal, state, fuel_a) is Some,
        search_from(g, goal, state, fuel_b) is Some,
    ensures
        search_from(g, goal, state, fuel_a) == search_from(g, goal, state, fuel_b),
    decreases fuel_a,
{
    if state.frontier.len() != 0 {
        let step = next_step(state.frontier);
        if step.position != goal {
            lemma_search_from_settles(
                g,
                goal,
                expand(g, without(state, step), step),
                (fuel_a - 1) as nat,
                (fuel_b - 1) as nat,
            );
        }
    }
}

/// The search is deterministic: the graph, the start and the goal fix how it
/// ends, with which path and at which cost, however it is run and however
/// often. Ties between equally cheap steps are settled by the smaller node,
/// so nothing is left to chance.
pub proof fn lemma_search_is_deterministic(
    g: GraphView,
    start: usize,
    goal: usize,
    fuel_a: nat,
    fuel_b: nat,
)
    requires
        search_within(g, start, goal, fuel_a) is Some,
        search_within(g, start, goal, fuel_b) is Some,
    ensures
        search_within(g, start, goal, fuel_a) == search_within(g, start, goal, fuel_b),
        search_within(g, start, goal, fuel_a) == Some(search_outcome(g, start, goal)),
{
    if start != goal {
        lemma_search_from_settles(g, goal, initial_state(g, start), fuel_a, fuel_b);
        let fuel = choose|fuel: nat| search_within(g, start, goal, fuel) is Some;
        lemma_search_from_settles(g, goal, initial_state(g, start), fuel_a, fuel);
    }
}

/// A search from a node to itself finds the node alone, at no cost.
pub proof fn lemma_search_to_itself(g: GraphView, node: usize)
    ensures
        search_outcome(g, node, node) == (Outcome::Found { path: seq![node], cost: 0 }),
{
    assert(search_within(g, node, node, 0) is Some);
    lemma_search_is_deterministic(g, node, node, 0, 0);
}

} // verus!
