use linkgraph::graph::Graph;
use std::collections::{HashMap, HashSet};

fn graph_of(edges: &[(usize, usize)]) -> Graph {
    let mut graph: HashMap<usize, HashSet<usize>> = HashMap::new();
    for &(from, to) in edges {
        graph.entry(from).or_default().insert(to);
    }
    Graph { graph }
}

fn is_walk(g: &Graph, path: &[usize]) -> bool {
    !path.is_empty() && path.windows(2).all(|w| g.graph.get(&w[0]).map_or(false, |out| out.contains(&w[1])))
}

/// Distances from `start` by relaxing every edge until nothing changes.
fn distances(g: &Graph, start: usize) -> HashMap<usize, usize> {
    let mut dist: HashMap<usize, usize> = HashMap::new();
    dist.insert(start, 0);
    loop {
        let mut changed = false;
        for (&from, out) in &g.graph {
            if let Some(&d) = dist.get(&from) {
                for &to in out {
                    if dist.get(&to).map_or(true, |&old| old > d + 1) {
                        dist.insert(to, d + 1);
                        changed = true;
                    }
                }
            }
        }
        if !changed {
            return dist;
        }
    }
}

const A: usize = 1;
const B: usize = 2;
const C: usize = 3;
const D: usize = 4;

#[test]
fn path_from_a_node_to_itself_is_that_node() {
    let g = graph_of(&[(A, B), (B, C), (C, A)]);
    assert_eq!(g.find_shortest_path(A, A), vec![A]);
    assert_eq!(g.find_shortest_path(C, C), vec![C]);
    let empty = graph_of(&[]);
    assert_eq!(empty.find_shortest_path(7, 7), vec![7]);
}

#[test]
fn path_along_a_chain() {
    let g = graph_of(&[(A, B), (B, C), (C, D)]);
    assert_eq!(g.find_shortest_path(A, D), vec![A, B, C, D]);
    assert_eq!(g.find_shortest_path(B, D), vec![B, C, D]);
    assert_eq!(g.find_shortest_path(A, B), vec![A, B]);
}

#[test]
fn path_takes_the_shortcut() {
    let g = graph_of(&[(A, B), (B, C), (C, D), (A, D)]);
    assert_eq!(g.find_shortest_path(A, D), vec![A, D]);
    assert_eq!(g.find_shortest_path(A, C), vec![A, B, C]);
}

#[test]
fn path_to_an_unreachable_node_is_the_node_alone() {
    let g = graph_of(&[(A, B), (B, C), (C, D)]);
    assert_eq!(g.find_shortest_path(D, A), vec![A]);
    assert_eq!(g.find_shortest_path(C, B), vec![B]);
    assert_eq!(g.find_shortest_path(A, 99), vec![99]);
    assert_eq!(g.find_shortest_path(99, A), vec![A]);
}

#[test]
fn path_follows_edges_and_is_shortest() {
    let edges = [
        (0, 1), (0, 2), (1, 3), (2, 3), (3, 4), (4, 5), (5, 0), (2, 6), (6, 7), (7, 4), (8, 0), (3, 3), (1, 5),
    ];
    let g = graph_of(&edges);
    for start in 0..10 {
        let dist = distances(&g, start);
        for end in 0..10 {
            let path = g.find_shortest_path(start, end);
            match dist.get(&end) {
                Some(&d) => {
                    assert_eq!(path.len(), d + 1);
                    assert_eq!(path[0], start);
                    assert_eq!(*path.last().unwrap(), end);
                    assert!(is_walk(&g, &path));
                },
                None => assert_eq!(path, vec![end]),
            }
        }
    }
}

#[test]
fn path_with_a_self_loop() {
    let g = graph_of(&[(A, A), (A, B)]);
    assert_eq!(g.find_shortest_path(A, A), vec![A]);
    assert_eq!(g.find_shortest_path(A, B), vec![A, B]);
}

#[test]
fn furthest_from_a_node_without_edges_is_the_node() {
    let g = graph_of(&[(A, B), (B, C)]);
    assert_eq!(g.find_furthest(C), (C, 0));
    assert_eq!(g.find_furthest(42), (42, 0));
    let mut with_empty_entry = graph_of(&[(A, B)]);
    with_empty_entry.graph.insert(B, HashSet::new());
    assert_eq!(with_empty_entry.find_furthest(B), (B, 0));
}

#[test]
fn furthest_along_a_chain() {
    let g = graph_of(&[(A, B), (B, C), (C, D)]);
    assert_eq!(g.find_furthest(A), (D, 3));
    assert_eq!(g.find_furthest(B), (D, 2));
    assert_eq!(g.find_furthest(C), (D, 1));
}

#[test]
fn furthest_with_a_shortcut() {
    let g = graph_of(&[(A, B), (B, C), (C, D), (A, D)]);
    assert_eq!(g.find_furthest(A), (C, 2));
}

#[test]
fn furthest_among_ties_is_at_the_greatest_distance() {
    let g = graph_of(&[(0, 1), (0, 2), (1, 3), (2, 4)]);
    let (node, dist) = g.find_furthest(0);
    assert_eq!(dist, 2);
    assert!(node == 3 || node == 4);
}

#[test]
fn furthest_is_the_greatest_distance() {
    let edges = [(0, 1), (0, 2), (1, 3), (2, 3), (3, 4), (4, 5), (5, 0), (2, 6), (6, 7), (7, 4), (8, 0), (3, 3)];
    let g = graph_of(&edges);
    for start in 0..10 {
        let dist = distances(&g, start);
        let (node, d) = g.find_furthest(start);
        assert_eq!(d, *dist.values().max().unwrap());
        assert_eq!(dist[&node], d);
    }
}

#[test]
fn furthest_on_the_reverse_graph() {
    let reverse = graph_of(&[(B, A), (C, B), (D, C), (D, A)]);
    assert_eq!(reverse.find_furthest(D), (B, 2));
    assert_eq!(reverse.find_furthest(A), (A, 0));
}

#[test]
fn links_of_a_page() {
    let g = graph_of(&[(A, B), (A, C), (B, C)]);
    let out = g.links(A).unwrap();
    assert_eq!(out.len(), 2);
    assert!(out.contains(&B) && out.contains(&C));
    assert!(g.links(C).is_none());
    assert!(g.links(99).is_none());
}

#[test]
fn estimate_from_the_start_of_a_chain() {
    let g = graph_of(&[(A, B), (B, C), (C, D)]);
    assert_eq!(g.estimate_diameter_from(A), (A, D, 3));
    assert_eq!(g.estimate_diameter_from(C), (C, D, 1));
    assert_eq!(g.estimate_diameter_from(D), (D, D, 0));
}

#[test]
fn estimate_moves_on_to_a_longer_sweep() {
    // From 10 the first sweep ends in 0 at distance 1; the next, from 0, finds 3 at distance 3.
    let g = graph_of(&[(10, 0), (0, 1), (1, 2), (2, 3)]);
    assert_eq!(g.estimate_diameter_from(10), (10, 3, 4));
    // A line of five nodes with edges both ways: from 1 the furthest node is 4, from 4 it is 0.
    let line = graph_of(&[(0, 1), (1, 0), (1, 2), (2, 1), (2, 3), (3, 2), (3, 4), (4, 3)]);
    assert_eq!(line.estimate_diameter_from(1), (4, 0, 4));
    assert_eq!(line.estimate_diameter_from(0), (0, 4, 4));
}

#[test]
fn estimate_on_a_cycle() {
    let g = graph_of(&[(0, 1), (1, 2), (2, 3), (3, 0)]);
    for _ in 0..20 {
        let (start, end, dist) = g.estimate_diameter();
        assert_eq!(dist, 3);
        assert!(start < 4 && end < 4);
        assert_eq!(g.find_shortest_path(start, end).len(), 4);
    }
}

#[test]
fn estimate_starts_from_a_node_with_an_entry() {
    let g = graph_of(&[(1000, 2000)]);
    for _ in 0..20 {
        assert_eq!(g.estimate_diameter(), (1000, 2000, 1));
    }
}

#[test]
fn estimate_is_a_distance_in_the_graph() {
    let edges = [(0, 1), (0, 2), (1, 3), (2, 3), (3, 4), (4, 5), (5, 0), (2, 6), (6, 7), (7, 4), (8, 0)];
    let g = graph_of(&edges);
    for _ in 0..20 {
        let (start, end, dist) = g.estimate_diameter();
        assert_eq!(distances(&g, start)[&end], dist);
        assert!(dist >= 1);
    }
}

#[test]
fn graph_has_edges_or_not() {
    assert!(graph_of(&[(A, B)]).has_edges());
    assert!(graph_of(&[(A, A)]).has_edges());
    assert!(!graph_of(&[]).has_edges());
    let mut entries_without_edges = graph_of(&[]);
    entries_without_edges.graph.insert(A, HashSet::new());
    entries_without_edges.graph.insert(B, HashSet::new());
    assert!(!entries_without_edges.has_edges());
    entries_without_edges.graph.entry(C).or_default().insert(D);
    assert!(entries_without_edges.has_edges());
}

#[test]
fn estimate_starts_from_a_node_with_an_outgoing_edge() {
    let mut g = graph_of(&[(5, 6)]);
    for node in 0..5 {
        g.graph.insert(node, HashSet::new());
    }
    g.graph.insert(6, HashSet::new());
    for _ in 0..40 {
        assert_eq!(g.estimate_diameter(), (5, 6, 1));
    }
}
