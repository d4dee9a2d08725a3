use std::cmp::Ordering;

use travel_planner::distance_table::DistanceTable;
use travel_planner::frontier::Frontier;
use travel_planner::graph::Graph;
use travel_planner::step::Step;

fn step(cost: usize, position: usize) -> Step {
    Step { cost, position, history: vec![position] }
}

#[test]
fn the_cheaper_step_is_the_greater() {
    assert_eq!(step(1, 9).cmp(&step(2, 0)), Ordering::Greater);
    assert_eq!(step(2, 0).cmp(&step(1, 9)), Ordering::Less);
    assert_eq!(step(0, 5).cmp(&step(usize::MAX, 5)), Ordering::Greater);
}

#[test]
fn of_equally_cheap_steps_the_one_at_the_smaller_node_is_the_greater() {
    let a = Step { cost: 1, position: 2, history: vec![1, 2] };
    let b = Step { cost: 1, position: 3, history: vec![1, 3] };
    assert_eq!(a.cmp(&b), Ordering::Greater);
    assert_eq!(b.cmp(&a), Ordering::Less);
    assert_eq!(step(3, 4).cmp(&step(3, 5)), Ordering::Greater);
    assert_eq!(step(3, 5).cmp(&step(3, 4)), Ordering::Less);
}

#[test]
fn steps_with_the_same_cost_and_node_are_equal() {
    assert_eq!(step(3, 4).cmp(&step(3, 4)), Ordering::Equal);
    let longer = Step { cost: 3, position: 4, history: vec![1, 2, 4] };
    assert_eq!(longer.cmp(&step(3, 4)), Ordering::Equal);
}

#[test]
fn partial_cmp_always_answers_as_cmp_does() {
    let steps = [step(0, 0), step(0, 7), step(1, 3), step(1, 4), step(5, 0), step(5, 0)];
    for a in &steps {
        for b in &steps {
            assert_eq!(a.partial_cmp(b), Some(a.cmp(b)));
        }
    }
    assert_eq!(step(1, 2).partial_cmp(&step(1, 3)), Some(Ordering::Greater));
    assert_eq!(step(2, 2).partial_cmp(&step(1, 3)), Some(Ordering::Less));
}

#[test]
fn the_greatest_step_is_the_one_the_frontier_yields() {
    let steps = [(5, 1), (3, 2), (3, 1), (8, 3), (1, 4), (1, 9), (9, 5)];
    let mut frontier = Frontier::new();
    for &(cost, position) in &steps {
        frontier.push(step(cost, position));
    }
    let mut rest: Vec<Step> = steps.iter().map(|&(cost, position)| step(cost, position)).collect();
    while let Some(next) = frontier.pop() {
        let at = (0..rest.len())
            .find(|&i| rest.iter().all(|other| rest[i].cmp(other) != Ordering::Less))
            .unwrap();
        let greatest = rest.remove(at);
        assert_eq!((next.cost, next.position), (greatest.cost, greatest.position));
    }
    assert!(rest.is_empty());
}

#[test]
fn precedes_agrees_with_cmp() {
    let steps = [step(0, 0), step(0, 7), step(1, 3), step(1, 4), step(5, 0), step(5, 0)];
    for a in &steps {
        for b in &steps {
            assert_eq!(a.precedes(b), a.cmp(b) != Ordering::Less);
        }
    }
}

#[test]
fn empty_frontier_yields_nothing() {
    let mut frontier = Frontier::new();
    assert!(frontier.is_empty());
    assert_eq!(frontier.len(), 0);
    assert!(frontier.pop().is_none());
    assert!(frontier.is_empty());
}

#[test]
fn frontier_yields_the_cheapest_step_first() {
    let mut frontier = Frontier::new();
    for (cost, position) in [(5, 1), (3, 2), (8, 3), (1, 4), (9, 5), (2, 6), (7, 7)] {
        frontier.push(step(cost, position));
    }
    assert_eq!(frontier.len(), 7);
    let mut costs = Vec::new();
    while let Some(next) = frontier.pop() {
        costs.push((next.cost, next.position));
    }
    assert_eq!(costs, vec![(1, 4), (2, 6), (3, 2), (5, 1), (7, 7), (8, 3), (9, 5)]);
    assert!(frontier.is_empty());
}

#[test]
fn frontier_settles_ties_by_the_smaller_node() {
    let mut frontier = Frontier::new();
    for position in [6, 2, 9, 4, 1, 8] {
        frontier.push(step(3, position));
    }
    frontier.push(step(2, 7));
    let mut order = Vec::new();
    while let Some(next) = frontier.pop() {
        order.push(next.position);
    }
    assert_eq!(order, vec![7, 1, 2, 4, 6, 8, 9]);
}

#[test]
fn frontier_keeps_the_history_of_each_step() {
    let mut frontier = Frontier::new();
    frontier.push(Step { cost: 4, position: 3, history: vec![1, 2, 3] });
    frontier.push(Step { cost: 1, position: 2, history: vec![1, 2] });
    let first = frontier.pop().unwrap();
    assert_eq!((first.cost, first.position, first.history), (1, 2, vec![1, 2]));
    let second = frontier.pop().unwrap();
    assert_eq!((second.cost, second.position, second.history), (4, 3, vec![1, 2, 3]));
}

#[test]
fn frontier_sorts_whatever_is_pushed() {
    let mut seed: u64 = 99;
    let mut frontier = Frontier::new();
    let mut expected = Vec::new();
    for round in 0..500 {
        seed = seed.wrapping_mul(6364136223846793005).wrapping_add(1442695040888963407);
        let cost = (seed >> 33) as usize % 50;
        let position = (seed >> 20) as usize % 10;
        frontier.push(step(cost, position));
        expected.push((cost, position));
        if round % 3 == 2 {
            expected.sort();
            let least = expected.remove(0);
            let next = frontier.pop().unwrap();
            assert_eq!((next.cost, next.position), least);
        }
    }
    expected.sort();
    let mut rest = Vec::new();
    while let Some(next) = frontier.pop() {
        rest.push((next.cost, next.position));
    }
    assert_eq!(rest, expected);
}

#[test]
fn distance_table_begins_with_the_start_at_zero() {
    let g = Graph::from_edge_list(&vec![(1, 2, 3), (2, 3, 4)]);
    let table = DistanceTable::for_search(&g, 1);
    assert_eq!(table.get(1), 0);
    assert_eq!(table.get(2), usize::MAX);
    assert_eq!(table.get(3), usize::MAX);
    assert_eq!(table.get(99), usize::MAX);
    let elsewhere = DistanceTable::for_search(&g, 99);
    assert_eq!(elsewhere.get(99), 0);
    assert_eq!(elsewhere.get(1), usize::MAX);
}

#[test]
fn distance_table_takes_only_strict_improvements() {
    let g = Graph::from_edge_list(&vec![(1, 2, 3)]);
    let mut table = DistanceTable::for_search(&g, 1);
    assert!(table.propose(2, 10));
    assert_eq!(table.get(2), 10);
    assert!(!table.propose(2, 10));
    assert!(!table.propose(2, 11));
    assert_eq!(table.get(2), 10);
    assert!(table.propose(2, 9));
    assert_eq!(table.get(2), 9);
    assert!(!table.propose(1, 0));
    assert!(!table.propose(2, usize::MAX));
    assert_eq!(table.get(1), 0);
}
