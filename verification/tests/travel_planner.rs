use std::cmp::Reverse;
use std::collections::BinaryHeap;

use travel_planner::graph::Graph;
use travel_planner::search::shortest_path;

#[test]
fn small_graph() {
    let edge_list = vec![(1, 2, 3), (1, 3, 6), (2, 3, 1), (4, 5, 1)];

    let g = Graph::from_edge_list(&edge_list);

    let path = shortest_path(&g, 1, 3);
    assert!(path.is_some());

    let (nodes, cost) = path.unwrap();
    assert_eq!(vec![1, 2, 3], nodes);
    assert_eq!(4, cost);
}

#[test]
fn same_node_is_a_path_of_cost_zero() {
    let g = Graph::from_edge_list(&vec![(1, 2, 3), (2, 1, 3)]);
    assert_eq!(shortest_path(&g, 1, 1), Some((vec![1], 0)));
    assert_eq!(shortest_path(&g, 2, 2), Some((vec![2], 0)));
}

#[test]
fn same_node_needs_no_graph() {
    let g = Graph::from_edge_list(&vec![]);
    assert_eq!(shortest_path(&g, 7, 7), Some((vec![7], 0)));
}

#[test]
fn single_directed_edge() {
    let g = Graph::from_edge_list(&vec![(1, 2, 5)]);
    assert_eq!(shortest_path(&g, 1, 2), Some((vec![1, 2], 5)));
    assert_eq!(shortest_path(&g, 2, 1), None);
}

#[test]
fn separate_component_is_not_reached() {
    let g = Graph::from_edge_list(&vec![(1, 2, 3), (1, 3, 6), (2, 3, 1), (4, 5, 1), (5, 4, 1)]);
    assert_eq!(shortest_path(&g, 1, 4), None);
    assert_eq!(shortest_path(&g, 4, 5), Some((vec![4, 5], 1)));
}

#[test]
fn unknown_nodes_have_no_route() {
    let g = Graph::from_edge_list(&vec![(1, 2, 3)]);
    assert_eq!(shortest_path(&g, 9, 2), None);
    assert_eq!(shortest_path(&g, 1, 9), None);
    assert_eq!(shortest_path(&g, 8, 9), None);
}

#[test]
fn nodes_without_outgoing_edges_are_nodes() {
    let g = Graph::from_edge_list(&vec![(1, 2, 3), (3, 2, 1)]);
    assert!(g.contains_node(1));
    assert!(g.contains_node(2));
    assert!(g.contains_node(3));
    assert!(!g.contains_node(4));
    assert_eq!(g.nodes().len(), 3);
    assert!(g.edges_from(2).is_none());
    assert_eq!(g.edges_from(1), Some(&vec![(2, 3)]));
}

#[test]
fn adjacency_keeps_input_order_and_parallel_edges() {
    let g = Graph::from_edge_list(&vec![(1, 2, 9), (1, 3, 1), (1, 2, 4), (2, 3, 1), (1, 2, 9)]);
    assert_eq!(g.edges_from(1), Some(&vec![(2, 9), (3, 1), (2, 4), (2, 9)]));
    assert_eq!(g.edges_from(2), Some(&vec![(3, 1)]));
}

#[test]
fn cheaper_parallel_edge_wins() {
    let g = Graph::from_edge_list(&vec![(1, 2, 9), (1, 2, 4), (1, 2, 7)]);
    assert_eq!(shortest_path(&g, 1, 2), Some((vec![1, 2], 4)));
}

#[test]
fn self_loops_are_skipped() {
    let g = Graph::from_edge_list(&vec![(1, 1, 2), (1, 2, 3), (2, 2, 1), (2, 3, 4)]);
    assert_eq!(shortest_path(&g, 1, 3), Some((vec![1, 2, 3], 7)));
}

#[test]
fn cumulative_cost_decides_not_the_last_edge() {
    // The route 1 -> 2 -> 4 ends in a cheap edge but costs 11 in all; the
    // route 1 -> 3 -> 4 ends in a dearer edge and costs 6.
    let g = Graph::from_edge_list(&vec![(1, 2, 10), (1, 3, 1), (2, 4, 1), (3, 4, 5)]);
    assert_eq!(shortest_path(&g, 1, 4), Some((vec![1, 3, 4], 6)));
}

#[test]
fn multi_hop_route_beats_direct_heavy_edge() {
    let g = Graph::from_edge_list(&vec![(1, 5, 100), (1, 2, 1), (2, 3, 1), (3, 4, 1), (4, 5, 1)]);
    assert_eq!(shortest_path(&g, 1, 5), Some((vec![1, 2, 3, 4, 5], 4)));
}

#[test]
fn later_improvement_replaces_earlier_candidate() {
    // Node 4 is first reached through 2 at cost 12, then through 3 at cost 5.
    let g = Graph::from_edge_list(&vec![(1, 2, 2), (1, 3, 3), (2, 4, 10), (3, 4, 2), (4, 5, 1)]);
    assert_eq!(shortest_path(&g, 1, 5), Some((vec![1, 3, 4, 5], 6)));
}

#[test]
fn ties_go_to_the_smaller_node() {
    // Both 2 and 3 are reached at cost 1, and both lead to 4 for 1 more.
    // The step at node 2 is expanded first, so the route through 2 is kept.
    let g = Graph::from_edge_list(&vec![(1, 3, 1), (1, 2, 1), (3, 4, 1), (2, 4, 1)]);
    assert_eq!(shortest_path(&g, 1, 4), Some((vec![1, 2, 4], 2)));
}

#[test]
fn zero_cost_edges_are_followed() {
    let g = Graph::from_edge_list(&vec![(1, 2, 0), (2, 3, 0), (1, 3, 1)]);
    assert_eq!(shortest_path(&g, 1, 3), Some((vec![1, 2, 3], 0)));
}

#[test]
fn cycles_do_not_trap_the_search() {
    let g = Graph::from_edge_list(&vec![(1, 2, 1), (2, 3, 1), (3, 1, 1), (3, 4, 5)]);
    assert_eq!(shortest_path(&g, 1, 4), Some((vec![1, 2, 3, 4], 7)));
    assert_eq!(shortest_path(&g, 4, 1), None);
}

#[test]
fn a_route_as_dear_as_the_sentinel_is_no_route() {
    let g = Graph::from_edge_list(&vec![(1, 2, usize::MAX)]);
    assert_eq!(shortest_path(&g, 1, 2), None);
    let g = Graph::from_edge_list(&vec![(1, 2, usize::MAX - 1)]);
    assert_eq!(shortest_path(&g, 1, 2), Some((vec![1, 2], usize::MAX - 1)));
}

#[test]
fn costs_that_overflow_are_not_taken() {
    let g = Graph::from_edge_list(&vec![(1, 2, usize::MAX - 1), (2, 3, 5), (1, 3, usize::MAX - 2)]);
    assert_eq!(shortest_path(&g, 1, 3), Some((vec![1, 3], usize::MAX - 2)));
    let g = Graph::from_edge_list(&vec![(1, 2, usize::MAX - 1), (2, 3, 5)]);
    assert_eq!(shortest_path(&g, 1, 3), None);
}

#[test]
fn repeated_searches_agree() {
    let edges = vec![(1, 2, 2), (1, 3, 2), (2, 4, 2), (3, 4, 2), (4, 5, 1), (2, 5, 3), (3, 5, 3)];
    let g = Graph::from_edge_list(&edges);
    let first = shortest_path(&g, 1, 5);
    for _ in 0..20 {
        assert_eq!(shortest_path(&g, 1, 5), first);
    }
    let again = Graph::from_edge_list(&edges);
    assert_eq!(shortest_path(&again, 1, 5), first);
    assert_eq!(first, Some((vec![1, 2, 5], 5)));
}

fn cheapest_simple_path(
    edges: &Vec<(usize, usize, usize)>,
    at: usize,
    goal: usize,
    visited: &mut Vec<usize>,
    so_far: usize,
    best: &mut Option<usize>,
) {
    if at == goal {
        if best.map_or(true, |b| so_far < b) {
            *best = Some(so_far);
        }
        return;
    }
    for &(from, to, cost) in edges {
        if from == at && !visited.contains(&to) {
            visited.push(to);
            cheapest_simple_path(edges, to, goal, visited, so_far + cost, best);
            visited.pop();
        }
    }
}

fn path_cost(edges: &Vec<(usize, usize, usize)>, path: &Vec<usize>) -> Option<usize> {
    let mut total = 0;
    for pair in path.windows(2) {
        let hop = edges.iter().filter(|e| e.0 == pair[0] && e.1 == pair[1]).map(|e| e.2).min()?;
        total += hop;
    }
    Some(total)
}

#[test]
fn cost_is_the_minimum_over_all_simple_paths() {
    let mut seed: u64 = 0x2545_f491_4f6c_dd1d;
    let mut next = move |bound: u64| {
        seed ^= seed << 13;
        seed ^= seed >> 7;
        seed ^= seed << 17;
        (seed % bound) as usize
    };
    for round in 0..200 {
        let nodes = 2 + round % 7;
        let count = next(3 * nodes as u64 + 1);
        let mut edges = Vec::new();
        for _ in 0..count {
            edges.push((next(nodes as u64), next(nodes as u64), next(10)));
        }
        let g = Graph::from_edge_list(&edges);
        for start in 0..nodes {
            for goal in 0..nodes {
                let mut best = None;
                let mut visited = vec![start];
                cheapest_simple_path(&edges, start, goal, &mut visited, 0, &mut best);
                let found = shortest_path(&g, start, goal);
                assert_eq!(found.as_ref().map(|r| r.1), best);
                if let Some((path, cost)) = found {
                    assert_eq!(path.first(), Some(&start));
                    assert_eq!(path.last(), Some(&goal));
                    assert_eq!(path_cost(&edges, &path), Some(cost));
                    let mut seen = path.clone();
                    seen.sort();
                    seen.dedup();
                    assert_eq!(seen.len(), path.len());
                }
            }
        }
    }
}

fn reference_costs(edges: &Vec<(usize, usize, usize)>, nodes: usize, start: usize) -> Vec<Option<usize>> {
    let mut adjacency: Vec<Vec<(usize, usize)>> = vec![Vec::new(); nodes];
    for &(from, to, cost) in edges {
        adjacency[from].push((to, cost));
    }
    let mut best: Vec<Option<usize>> = vec![None; nodes];
    let mut queue = BinaryHeap::new();
    best[start] = Some(0);
    queue.push(Reverse((0usize, start)));
    while let Some(Reverse((cost, at))) = queue.pop() {
        if best[at] != Some(cost) {
            continue;
        }
        for &(to, hop) in &adjacency[at] {
            let candidate = cost + hop;
            if best[to].map_or(true, |b| candidate < b) {
                best[to] = Some(candidate);
                queue.push(Reverse((candidate, to)));
            }
        }
    }
    best
}

#[test]
fn ten_thousand_nodes() {
    let nodes = 10_000;
    let mut edges = Vec::new();
    for i in 0..nodes {
        edges.push((i, (i + 1) % nodes, 3 + i % 5));
        edges.push((i, (i * 37 + 11) % nodes, 1 + i % 13));
        edges.push((i, (i * 101 + 7) % nodes, 2 + i % 7));
    }
    let g = Graph::from_edge_list(&edges);
    let expected = reference_costs(&edges, nodes, 1000);
    for goal in [9000, 0, 1001, 4321, 9999] {
        let found = shortest_path(&g, 1000, goal);
        assert_eq!(found.as_ref().map(|r| r.1), expected[goal]);
        let (path, cost) = found.unwrap();
        assert_eq!(path_cost(&edges, &path), Some(cost));
    }
}

#[test]
fn independent_searches_over_one_graph_do_not_disturb_each_other() {
    let mut edges = Vec::new();
    for i in 0..200usize {
        edges.push((i, (i + 1) % 200, 2 + i % 3));
        edges.push((i, (i * 7 + 3) % 200, 1 + i % 5));
    }
    let g = Graph::from_edge_list(&edges);
    let queries: Vec<(usize, usize)> = (0..16).map(|k| (k * 11 % 200, k * 53 % 200)).collect();
    let in_turn: Vec<_> = queries.iter().map(|&(from, to)| shortest_path(&g, from, to)).collect();
    // The same queries interleaved in another order, each on a graph built anew.
    for (k, &(from, to)) in queries.iter().enumerate().rev() {
        let other = Graph::from_edge_list(&edges);
        assert_eq!(shortest_path(&other, from, to), in_turn[k]);
        assert_eq!(shortest_path(&g, from, to), in_turn[k]);
    }
}

fn generated_large_graph() -> (usize, Vec<(usize, usize, usize)>) {
    let nodes = 10_000;
    let mut edges = Vec::new();
    for i in 0..nodes {
        edges.push((i, (i + 1) % nodes, 3 + i % 5));
        edges.push((i, (i * 37 + 11) % nodes, 1 + i % 13));
        edges.push((i, (i * 101 + 7) % nodes, 2 + i % 7));
    }
    (nodes, edges)
}

#[test]
fn large_graph() {
    let (nodes, edge_list) = generated_large_graph();
    let g = Graph::from_edge_list(&edge_list);

    let path = shortest_path(&g, 1000, 9000);
    assert!(path.is_some());
    assert_eq!(Some(path.unwrap().1), reference_costs(&edge_list, nodes, 1000)[9000]);
}
