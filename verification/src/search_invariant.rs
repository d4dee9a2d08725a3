//! What holds of a search between any two of its steps, and why that makes
//! the route it finds a cheapest one.
//!
//! A node is *settled* once a step at it was taken from the frontier. The
//! cost known for a settled node is the cost of a cheapest route to it, and
//! every edge that leaves it has been relaxed.

use crate::distance_table::known_best;
use crate::graph::GraphView;
use crate::route::{lemma_cost_not_negative, lemma_extend_route};
use crate::search_model::{
    first_step, initial_state, is_next, next_step, next_step_along, relax, without, SearchState,
};
use crate::step::StepView;
use vstd::multiset::Multiset;
use vstd::prelude::*;

verus! {

/// A step at `node` with cumulative cost `cost` is in the frontier.
pub open spec fn waiting(frontier: Multiset<StepView>, node: usize, cost: usize) -> bool {
    exists|s: StepView|
        #![trigger frontier.count(s)]
        frontier.count(s) > 0 && s.position == node && s.cost == cost
}

/// The history of `s` is a route from `start` to its node at its cost, it
/// visits no node twice, and no node on it is known to be reached for more
/// than `s` costs.
pub open spec fn step_sound(g: GraphView, start: usize, best: Map<usize, usize>, s: StepView)
    -> bool {
    &&& g.route(start, s.position, s.history, s.cost as int)
    &&& s.cost < usize::MAX
    &&& s.history.no_duplicates()
    &&& forall|i: int|
        0 <= i < s.history.len() ==> known_best(best, #[trigger] s.history[i]) <= s.cost
}

/// Every step in the frontier is sound.
pub open spec fn steps_sound(g: GraphView, start: usize, state: SearchState) -> bool {
    forall|s: StepView|
        #![trigger state.frontier.count(s)]
        state.frontier.count(s) > 0 ==> step_sound(g, start, state.best, s)
}

/// No two different steps in the frontier stand at the same node with the
/// same cost.
pub open spec fn keys_distinct(frontier: Multiset<StepView>) -> bool {
    forall|s: StepView, t: StepView|
        #![trigger frontier.count(s), frontier.count(t)]
        frontier.count(s) > 0 && frontier.count(t) > 0 && s.same_key(t) ==> s == t
}

/// No route from `start` to a settled node is cheaper than the cost known
/// for that node.
pub open spec fn settled_optimal(
    g: GraphView,
    start: usize,
    best: Map<usize, usize>,
    settled: Set<usize>,
) -> bool {
    forall|u: usize, path: Seq<usize>, cost: int|
        settled.contains(u) && #[trigger] g.route(start, u, path, cost) ==> known_best(best, u)
            <= cost
}

/// Every edge that leaves a settled node has been relaxed.
pub open spec fn settled_relaxed(g: GraphView, best: Map<usize, usize>, settled: Set<usize>)
    -> bool {
    forall|u: usize, v: usize, w: usize|
        settled.contains(u) && #[trigger] g.has_edge(u, v, w) ==> known_best(best, v)
            <= known_best(best, u) + w
}

/// No step in the frontier is cheaper than a settled node.
pub open spec fn settled_first(
    best: Map<usize, usize>,
    frontier: Multiset<StepView>,
    settled: Set<usize>,
) -> bool {
    forall|u: usize, s: StepView|
        #![trigger settled.contains(u), frontier.count(s)]
        settled.contains(u) && frontier.count(s) > 0 ==> known_best(best, u) <= s.cost
}

/// Every node that was reached and is not settled has a step in the frontier
/// at the cost known for it.
pub open spec fn unsettled_waiting(
    best: Map<usize, usize>,
    frontier: Multiset<StepView>,
    settled: Set<usize>,
) -> bool {
    forall|v: usize|
        known_best(best, v) < usize::MAX && !(#[trigger] settled.contains(v)) ==> waiting(
            frontier,
            v,
            known_best(best, v),
        )
}

/// What holds between two expansions.
pub open spec fn searching(
    g: GraphView,
    start: usize,
    goal: usize,
    state: SearchState,
    settled: Set<usize>,
) -> bool {
    &&& g.well_formed()
    &&& start != goal
    &&& !settled.contains(goal)
    &&& known_best(state.best, start) == 0
    &&& steps_sound(g, start, state)
    &&& keys_distinct(state.frontier)
    &&& settled_optimal(g, start, state.best, settled)
    &&& settled_relaxed(g, state.best, settled)
    &&& settled_first(state.best, state.frontier, settled)
    &&& unsettled_waiting(state.best, state.frontier, settled)
}

/// `edge` is one of the first `done` edges of `edges`.
pub open spec fn among_first(edges: Seq<(usize, usize)>, done: int, edge: (usize, usize)) -> bool {
    exists|k: int| 0 <= k < done && k < edges.len() && #[trigger] edges[k] == edge
}

/// Every edge that leaves a settled node has been relaxed, but perhaps those
/// of the node of `from` behind the first `done`.
pub open spec fn relaxed_so_far(
    g: GraphView,
    best: Map<usize, usize>,
    settled: Set<usize>,
    from: StepView,
    done: int,
) -> bool {
    ||| settled_relaxed(g, best, settled)
    ||| {
        &&& known_best(best, from.position) == from.cost
        &&& forall|u: usize, v: usize, w: usize|
            settled.contains(u) && #[trigger] g.has_edge(u, v, w) && (u != from.position
                || among_first(g.adjacency[u], done, (v, w))) ==> known_best(best, v)
                <= known_best(best, u) + w
    }
}

/// What holds while the edges of the node of `from` are relaxed, after the
/// first `done` of them.
pub open spec fn expanding(
    g: GraphView,
    start: usize,
    goal: usize,
    state: SearchState,
    settled: Set<usize>,
    from: StepView,
    done: int,
) -> bool {
    &&& g.well_formed()
    &&& start != goal
    &&& !settled.contains(goal)
    &&& known_best(state.best, start) == 0
    &&& step_sound(g, start, state.best, from)
    &&& settled.contains(from.position)
    &&& steps_sound(g, start, state)
    &&& keys_distinct(state.frontier)
    &&& settled_optimal(g, start, state.best, settled)
    &&& settled_first(state.best, state.frontier, settled)
    &&& forall|u: usize| #[trigger] settled.contains(u) ==> known_best(state.best, u) <= from.cost
    &&& unsettled_waiting(state.best, state.frontier, settled)
    &&& relaxed_so_far(g, state.best, settled, from, done)
}

/// A sound step stands at the last node of its history, and that node is not
/// known to be reached for more than the step costs.
pub proof fn lemma_sound_step_position(
    g: GraphView,
    start: usize,
    best: Map<usize, usize>,
    s: StepView,
)
    requires
        step_sound(g, start, best, s),
    ensures
        known_best(best, s.position) <= s.cost,
{
    assert(s.history[s.history.len() - 1] == s.position);
}

/// The frontier yields exactly the step that precedes all its steps.
pub proof fn lemma_next_step_unique(frontier: Multiset<StepView>, s: StepView)
    requires
        keys_distinct(frontier),
        is_next(frontier, s),
    ensures
        next_step(frontier) == s,
{
    let t = next_step(frontier);
    assert(is_next(frontier, t));
    assert(frontier.count(s) > 0 && frontier.count(t) > 0);
    assert(s.precedes(t) && t.precedes(s));
}

/// The state in which a search begins has all that holds between expansions.
pub proof fn lemma_initial_state(g: GraphView, start: usize, goal: usize)
    requires
        g.well_formed(),
        start != goal,
    ensures
        searching(g, start, goal, initial_state(g, start), Set::empty()),
{
    let state = initial_state(g, start);
    let first = first_step(start);
    assert(known_best(state.best, start) == 0);
    assert forall|s: StepView| #![trigger state.frontier.count(s)] state.frontier.count(s) > 0
        implies s == first by {
        if s != first {
            assert(state.frontier.count(s) == 0);
        }
    }
    assert(first.history.len() == 1);
    assert(first.history[0] == start);
    assert(g.connects(first.history, 0));
    assert(step_sound(g, start, state.best, first));
    assert(state.frontier.count(first) > 0);
    assert(waiting(state.frontier, start, 0));
    assert forall|v: usize|
        known_best(state.best, v) < usize::MAX && !(#[trigger] Set::<usize>::empty().contains(
            v,
        )) implies waiting(state.frontier, v, known_best(state.best, v)) by {
        assert(v == start);
    }
}

/// A route from a settled start to a node that is not settled passes a node
/// that is not settled and is known to be reached for no more than the route
/// costs.
pub proof fn lemma_route_leaves_settled(
    g: GraphView,
    start: usize,
    best: Map<usize, usize>,
    settled: Set<usize>,
    path: Seq<usize>,
    cost: int,
)
    requires
        settled_optimal(g, start, best, settled),
        settled_relaxed(g, best, settled),
        settled.contains(start),
        g.route(start, path.last(), path, cost),
        !settled.contains(path.last()),
    ensures
        exists|x: usize| !(#[trigger] settled.contains(x)) && known_best(best, x) <= cost,
    decreases path.len(),
{
    if path.len() > 1 {
        let hop = choose|hop: usize|
            #![trigger g.has_edge(path[path.len() - 2], path.last(), hop)]
            g.has_edge(path[path.len() - 2], path.last(), hop) && g.connects(
                path.drop_last(),
                cost - hop,
            );
        let shorter = path.drop_last();
        let u = path[path.len() - 2];
        assert(shorter.first() == start);
        assert(shorter.last() == u);
        assert(g.route(start, u, shorter, cost - hop));
        if settled.contains(u) {
            assert(known_best(best, u) <= cost - hop);
            assert(g.has_edge(u, path.last(), hop));
            assert(known_best(best, path.last()) <= known_best(best, u) + hop);
            assert(!settled.contains(path.last()) && known_best(best, path.last()) <= cost);
        } else {
            lemma_route_leaves_settled(g, start, best, settled, shorter, cost - hop);
            let x = choose|x: usize|
                !(#[trigger] settled.contains(x)) && known_best(best, x) <= cost - hop;
            assert(!settled.contains(x) && known_best(best, x) <= cost);
        }
    }
}

/// The step that the frontier yields, if its node is not settled yet, holds
/// the cost known for that node, and no route to the node is cheaper.
pub proof fn lemma_settle(
    g: GraphView,
    start: usize,
    goal: usize,
    state: SearchState,
    settled: Set<usize>,
    s: StepView,
)
    requires
        searching(g, start, goal, state, settled),
        is_next(state.frontier, s),
        !settled.contains(s.position),
    ensures
        known_best(state.best, s.position) == s.cost,
        step_sound(g, start, state.best, s),
        forall|path: Seq<usize>, cost: int| #[trigger]
            g.route(start, s.position, path, cost) ==> s.cost <= cost,
{
    let best = state.best;
    let frontier = state.frontier;
    assert(frontier.count(s) > 0);
    assert(step_sound(g, start, best, s));
    lemma_sound_step_position(g, start, best, s);
    assert(waiting(frontier, s.position, known_best(best, s.position)));
    let t = choose|t: StepView|
        #![trigger frontier.count(t)]
        frontier.count(t) > 0 && t.position == s.position && t.cost == known_best(
            best,
            s.position,
        );
    assert(s.precedes(t));
    assert forall|path: Seq<usize>, cost: int| #[trigger]
        g.route(start, s.position, path, cost) implies s.cost <= cost by {
        lemma_cost_not_negative(g, path, cost);
        if s.cost > 0 {
            if !settled.contains(start) {
                assert(waiting(frontier, start, known_best(best, start)));
                let z = choose|z: StepView|
                    #![trigger frontier.count(z)]
                    frontier.count(z) > 0 && z.position == start && z.cost == 0;
                assert(s.precedes(z));
            }
            lemma_route_leaves_settled(g, start, best, settled, path, cost);
            let x = choose|x: usize|
                !(#[trigger] settled.contains(x)) && known_best(best, x) <= cost;
            if known_best(best, x) < usize::MAX {
                assert(waiting(frontier, x, known_best(best, x)));
                let y = choose|y: StepView|
                    #![trigger frontier.count(y)]
                    frontier.count(y) > 0 && y.position == x && y.cost == known_best(best, x);
                assert(s.precedes(y));
            }
        }
    }
}

/// Once the frontier has yielded a step that does not stand at the goal, the
/// node of that step is settled and its edges can be relaxed.
pub proof fn lemma_begin_expansion(
    g: GraphView,
    start: usize,
    goal: usize,
    state: SearchState,
    settled: Set<usize>,
    s: StepView,
)
    requires
        searching(g, start, goal, state, settled),
        is_next(state.frontier, s),
        s.position != goal,
    ensures
        expanding(g, start, goal, without(state, s), settled.insert(s.position), s, 0),
{
    let best = state.best;
    let frontier = state.frontier;
    let rest = without(state, s);
    let now = settled.insert(s.position);
    assert(frontier.count(s) > 0);
    assert(step_sound(g, start, best, s));
    lemma_sound_step_position(g, start, best, s);
    assert forall|t: StepView| #![trigger rest.frontier.count(t)] rest.frontier.count(t)
        > 0 implies frontier.count(t) > 0 by {}
    if !settled.contains(s.position) {
        lemma_settle(g, start, goal, state, settled, s);
    }
    assert forall|u: usize| #[trigger] now.contains(u) implies known_best(best, u) <= s.cost by {
        if settled.contains(u) {
            assert(frontier.count(s) > 0);
        }
    }
    assert(settled_first(best, rest.frontier, now)) by {
        assert forall|u: usize, t: StepView|
            #![trigger now.contains(u), rest.frontier.count(t)]
            now.contains(u) && rest.frontier.count(t) > 0 implies known_best(best, u)
            <= t.cost by {
            assert(frontier.count(t) > 0);
            assert(s.precedes(t));
            if settled.contains(u) {
                assert(known_best(best, u) <= t.cost);
            }
        }
    }
    assert(unsettled_waiting(best, rest.frontier, now)) by {
        assert forall|v: usize|
            known_best(best, v) < usize::MAX && !(#[trigger] now.contains(v)) implies waiting(
            rest.frontier,
            v,
            known_best(best, v),
        ) by {
            assert(!settled.contains(v));
            assert(waiting(frontier, v, known_best(best, v)));
            let t = choose|t: StepView|
                #![trigger frontier.count(t)]
                frontier.count(t) > 0 && t.position == v && t.cost == known_best(best, v);
            assert(t != s);
            assert(rest.frontier.count(t) > 0);
        }
    }
    assert(settled_optimal(g, start, best, now));
    assert(relaxed_so_far(g, best, now, s, 0)) by {
        if settled.contains(s.position) {
            assert(now =~= settled);
        } else {
            assert forall|u: usize, v: usize, w: usize|
                now.contains(u) && #[trigger] g.has_edge(u, v, w) && (u != s.position
                    || among_first(g.adjacency[u], 0, (v, w))) implies known_best(best, v)
                <= known_best(best, u) + w by {
                assert(settled.contains(u));
            }
        }
    }
}

/// Relaxing the next edge of the node that is expanded keeps all that holds
/// during an expansion.
pub proof fn lemma_relax_keeps_expanding(
    g: GraphView,
    start: usize,
    goal: usize,
    state: SearchState,
    settled: Set<usize>,
    s: StepView,
    done: int,
)
    requires
        expanding(g, start, goal, state, settled, s, done),
        g.adjacency.contains_key(s.position),
        0 <= done < g.adjacency[s.position].len(),
    ensures
        expanding(
            g,
            start,
            goal,
            relax(state, s, g.adjacency[s.position][done]),
            settled,
            s,
            done + 1,
        ),
        g.nodes.contains(g.adjacency[s.position][done].0),
{
    let edges = g.adjacency[s.position];
    let (v, w) = edges[done];
    let best = state.best;
    let frontier = state.frontier;
    let after = relax(state, s, edges[done]);
    let candidate = s.cost + w;
    assert(edges.contains((v, w)));
    assert(g.has_edge(s.position, v, w));
    assert(g.nodes.contains(edges[done].0));
    lemma_extend_route(g, start, s.history, s.cost as int, v, w);
    let longer = s.history.push(v);
    assert(g.route(start, v, longer, candidate));
    lemma_sound_step_position(g, start, best, s);
    if candidate < known_best(best, v) {
        let n = next_step_along(s, v, candidate as usize);
        assert(!settled.contains(v));
        assert(!s.history.contains(v)) by {
            if s.history.contains(v) {
                let i = choose|i: int| 0 <= i < s.history.len() && s.history[i] == v;
                assert(known_best(best, s.history[i]) <= s.cost);
            }
        }
        assert(v != s.position);
        assert(v != start);
        assert forall|x: usize| known_best(after.best, x) <= known_best(best, x) by {}
        assert forall|x: usize| x != v implies known_best(after.best, x) == known_best(
            best,
            x,
        ) by {}
        assert(longer.no_duplicates()) by {
            assert forall|i: int, j: int|
                0 <= i < longer.len() && 0 <= j < longer.len() && i != j implies longer[i]
                != longer[j] by {
                if i < s.history.len() && j < s.history.len() {
                    assert(s.history[i] != s.history[j]);
                } else if i < s.history.len() {
                    assert(s.history.contains(s.history[i]));
                } else {
                    assert(s.history.contains(s.history[j]));
                }
            }
        }
        assert(step_sound(g, start, after.best, n)) by {
            assert forall|i: int| 0 <= i < n.history.len() implies known_best(
                after.best,
                #[trigger] n.history[i],
            ) <= n.cost by {
                if i < s.history.len() {
                    assert(known_best(best, s.history[i]) <= s.cost);
                }
            }
        }
        assert(step_sound(g, start, after.best, s)) by {
            assert forall|i: int| 0 <= i < s.history.len() implies known_best(
                after.best,
                #[trigger] s.history[i],
            ) <= s.cost by {
                assert(known_best(best, s.history[i]) <= s.cost);
            }
        }
        assert(steps_sound(g, start, after)) by {
            assert forall|t: StepView|
                #![trigger after.frontier.count(t)]
                after.frontier.count(t) > 0 implies step_sound(g, start, after.best, t) by {
                if t != n {
                    assert(frontier.count(t) > 0);
                    assert(step_sound(g, start, best, t));
                    assert forall|i: int| 0 <= i < t.history.len() implies known_best(
                        after.best,
                        #[trigger] t.history[i],
                    ) <= t.cost by {
                        assert(known_best(best, t.history[i]) <= t.cost);
                    }
                }
            }
        }
        assert(keys_distinct(after.frontier)) by {
            assert forall|a: StepView, b: StepView|
                #![trigger after.frontier.count(a), after.frontier.count(b)]
                after.frontier.count(a) > 0 && after.frontier.count(b) > 0 && a.same_key(
                    b,
                ) implies a == b by {
                if a != n {
                    assert(frontier.count(a) > 0);
                    assert(step_sound(g, start, best, a));
                    lemma_sound_step_position(g, start, best, a);
                }
                if b != n {
                    assert(frontier.count(b) > 0);
                    assert(step_sound(g, start, best, b));
                    lemma_sound_step_position(g, start, best, b);
                }
            }
        }
        assert(settled_first(after.best, after.frontier, settled)) by {
            assert forall|u: usize, t: StepView|
                #![trigger settled.contains(u), after.frontier.count(t)]
                settled.contains(u) && after.frontier.count(t) > 0 implies known_best(
                after.best,
                u,
            ) <= t.cost by {
                if t != n {
                    assert(frontier.count(t) > 0);
                }
            }
        }
        assert(unsettled_waiting(after.best, after.frontier, settled)) by {
            assert forall|x: usize|
                known_best(after.best, x) < usize::MAX && !(#[trigger] settled.contains(
                    x,
                )) implies waiting(after.frontier, x, known_best(after.best, x)) by {
                if x == v {
                    assert(after.frontier.count(n) > 0);
                } else {
                    assert(waiting(frontier, x, known_best(best, x)));
                    let t = choose|t: StepView|
                        #![trigger frontier.count(t)]
                        frontier.count(t) > 0 && t.position == x && t.cost == known_best(
                            best,
                            x,
                        );
                    assert(after.frontier.count(t) > 0);
                }
            }
        }
        assert(settled_optimal(g, start, after.best, settled));
    }
    assert(relaxed_so_far(g, after.best, settled, s, done + 1)) by {
        assert(known_best(after.best, v) <= candidate);
        assert forall|x: usize| known_best(after.best, x) <= known_best(best, x) by {}
        assert forall|x: usize| settled.contains(x) implies known_best(after.best, x)
            == known_best(best, x) by {}
        if settled_relaxed(g, best, settled) {
            assert forall|u: usize, x: usize, c: usize|
                settled.contains(u) && #[trigger] g.has_edge(u, x, c) implies known_best(
                after.best,
                x,
            ) <= known_best(after.best, u) + c by {
                assert(known_best(best, x) <= known_best(best, u) + c);
            }
        } else {
            assert forall|u: usize, x: usize, c: usize|
                settled.contains(u) && #[trigger] g.has_edge(u, x, c) && (u != s.position
                    || among_first(g.adjacency[u], done + 1, (x, c))) implies known_best(
                after.best,
                x,
            ) <= known_best(after.best, u) + c by {
                if u != s.position || among_first(edges, done, (x, c)) {
                    assert(known_best(best, x) <= known_best(best, u) + c);
                } else {
                    let k = choose|k: int|
                        0 <= k < done + 1 && k < edges.len() && #[trigger] edges[k] == (x, c);
                    if k < done {
                        assert(among_first(edges, done, (x, c)));
                    }
                    assert(k == done);
                }
            }
        }
    }
}

/// When every edge of the expanded node has been relaxed, all that holds
/// between expansions holds again.
pub proof fn lemma_end_expansion(
    g: GraphView,
    start: usize,
    goal: usize,
    state: SearchState,
    settled: Set<usize>,
    s: StepView,
    done: int,
)
    requires
        expanding(g, start, goal, state, settled, s, done),
        g.adjacency.contains_key(s.position) ==> done >= g.adjacency[s.position].len(),
    ensures
        searching(g, start, goal, state, settled),
{
    if !settled_relaxed(g, state.best, settled) {
        assert forall|u: usize, v: usize, w: usize|
            settled.contains(u) && #[trigger] g.has_edge(u, v, w) implies known_best(
            state.best,
            v,
        ) <= known_best(state.best, u) + w by {
            if u == s.position {
                let edges = g.adjacency[u];
                let k = choose|k: int| 0 <= k < edges.len() && edges[k] == (v, w);
                assert(among_first(edges, done, (v, w)));
            }
        }
    }
}

/// When the frontier is empty, no route leads from the start to the goal at
/// a cost below the one that stands for "not reached".
pub proof fn lemma_exhausted(
    g: GraphView,
    start: usize,
    goal: usize,
    state: SearchState,
    settled: Set<usize>,
)
    requires
        searching(g, start, goal, state, settled),
        state.frontier.len() == 0,
    ensures
        !g.reachable_below(start, goal, usize::MAX as int),
{
    let best = state.best;
    let frontier = state.frontier;
    assert forall|x: usize| known_best(best, x) < usize::MAX implies #[trigger] settled.contains(
        x,
    ) by {
        if !settled.contains(x) {
            assert(waiting(frontier, x, known_best(best, x)));
            let t = choose|t: StepView|
                #![trigger frontier.count(t)]
                frontier.count(t) > 0 && t.position == x && t.cost == known_best(best, x);
            assert(frontier.count(t) <= frontier.len());
        }
    }
    assert(settled.contains(start));
    if g.reachable_below(start, goal, usize::MAX as int) {
        let (path, cost) = choose|path: Seq<usize>, cost: int| #[trigger]
            g.route(start, goal, path, cost) && cost < usize::MAX as int;
        lemma_route_leaves_settled(g, start, best, settled, path, cost);
        let x = choose|x: usize| !(#[trigger] settled.contains(x)) && known_best(best, x) <= cost;
        assert(settled.contains(x));
    }
}

/// The sum of the costs known for the nodes of `keys`.
pub open spec fn total_known(keys: Seq<usize>, best: Map<usize, usize>) -> nat
    decreases keys.len(),
{
    if keys.len() == 0 {
        0
    } else {
        (total_known(keys.drop_last(), best) + known_best(best, keys.last())) as nat
    }
}

/// A strictly better cost for one node does not raise the sum of the known
/// costs, and lowers it where the node is among the keys.
pub proof fn lemma_total_known_falls(
    keys: Seq<usize>,
    best: Map<usize, usize>,
    node: usize,
    candidate: usize,
)
    requires
        candidate < known_best(best, node),
    ensures
        total_known(keys, best.insert(node, candidate)) <= total_known(keys, best),
        keys.contains(node) ==> total_known(keys, best.insert(node, candidate)) < total_known(
            keys,
            best,
        ),
    decreases keys.len(),
{
    if keys.len() > 0 {
        let earlier = keys.drop_last();
        lemma_total_known_falls(earlier, best, node, candidate);
        if keys.contains(node) && keys.last() != node {
            let i = choose|i: int| 0 <= i < keys.len() && keys[i] == node;
            assert(earlier[i] == node);
        }
    }
}

} // verus!
