use astar::{djikstra, djikstra_adj_map, djikstra_capped, make_adj_map, AdjMap, DjikstraNode};
use std::collections::HashSet;

type Coord = (isize, isize);

const REFERENCE: [(char, char, u64); 9] = [
    ('a', 'b', 7),
    ('a', 'c', 9),
    ('a', 'f', 14),
    ('b', 'c', 10),
    ('b', 'd', 15),
    ('c', 'd', 11),
    ('c', 'f', 2),
    ('d', 'e', 6),
    ('e', 'f', 9),
];

fn test_case(graph: &[(char, char, u64)], start: char, end: char, expect_path: Option<Vec<char>>) {
    let adj = make_adj_map(graph);
    let path = djikstra_adj_map(&adj, start, end);
    assert_eq!(path, expect_path);
}

fn path_cost(adj: &AdjMap<char>, path: &[char]) -> u64 {
    let mut total = 0;
    for pair in path.windows(2) {
        total += adj.cost(pair[1], pair[0]);
    }
    total
}

fn grid_neighbours(p: Coord, size: isize, blocked: &[Coord]) -> Vec<Coord> {
    let (x, y) = p;
    [(x - 1, y), (x + 1, y), (x, y - 1), (x, y + 1)]
        .into_iter()
        .filter(|&(a, b)| a >= 0 && b >= 0 && a < size && b < size && !blocked.contains(&(a, b)))
        .collect()
}

fn is_grid_walk(path: &[Coord]) -> bool {
    path.windows(2).all(|w| (w[0].0 - w[1].0).abs() + (w[0].1 - w[1].1).abs() == 1)
}

#[test]
fn test_djikstra_example_1() {
    test_case(&REFERENCE, 'a', 'e', Some(vec!['e', 'f', 'c', 'a']));
}

#[test]
fn test_astar_example_1() {}

#[test]
fn reference_graph_path_costs_twenty() {
    let adj = make_adj_map(&REFERENCE);
    let path = djikstra_adj_map(&adj, 'a', 'e').unwrap();
    assert_eq!(path, vec!['e', 'f', 'c', 'a']);
    assert_eq!(path_cost(&adj, &path), 20);
}

#[test]
fn reference_graph_other_pairs() {
    let adj = make_adj_map(&REFERENCE);
    let to_d = djikstra_adj_map(&adj, 'a', 'd').unwrap();
    assert_eq!(path_cost(&adj, &to_d), 20);
    let to_b = djikstra_adj_map(&adj, 'e', 'b').unwrap();
    assert_eq!(path_cost(&adj, &to_b), 21);
    assert_eq!(to_b[0], 'b');
    assert_eq!(*to_b.last().unwrap(), 'e');
}

#[test]
fn trivial_path_is_single_vertex() {
    let adj = make_adj_map(&REFERENCE);
    assert_eq!(djikstra_adj_map(&adj, 'c', 'c'), Some(vec!['c']));
    let p = djikstra(|_: u32, _: u32| 1u64, |v: u32| vec![v + 1], 5u32, 5u32);
    assert_eq!(p, Some(vec![5]));
}

#[test]
fn vertex_without_edges_is_unreachable() {
    let adj = make_adj_map(&REFERENCE);
    assert_eq!(djikstra_adj_map(&adj, 'a', 'z'), None);
    assert_eq!(djikstra_adj_map(&adj, 'z', 'a'), None);
    assert_eq!(djikstra_adj_map(&adj, 'z', 'z'), Some(vec!['z']));
    assert!(adj.adjacent('z').is_empty());
}

#[test]
fn disconnected_components() {
    let adj = make_adj_map(&[(1u32, 2u32, 3u64), (3, 4, 1)]);
    assert_eq!(djikstra_adj_map(&adj, 1, 4), None);
    assert_eq!(djikstra_adj_map(&adj, 1, 2), Some(vec![2, 1]));
}

#[test]
fn adjacency_is_symmetric() {
    let adj = make_adj_map(&REFERENCE);
    for &(a, b, w) in REFERENCE.iter() {
        assert_eq!(adj.cost(a, b), w);
        assert_eq!(adj.cost(b, a), w);
        assert!(adj.adjacent(a).contains(&b));
        assert!(adj.adjacent(b).contains(&a));
    }
}

#[test]
fn later_edge_replaces_weight() {
    let adj = make_adj_map(&[('x', 'y', 5u64), ('y', 'x', 2), ('x', 'z', 1)]);
    assert_eq!(adj.cost('x', 'y'), 2);
    assert_eq!(adj.cost('y', 'x'), 2);
    assert_eq!(adj.adjacent('x'), vec!['y', 'z']);
    assert_eq!(adj.adjacent('y'), vec!['x']);
}

#[test]
fn cheaper_longer_route_wins() {
    let adj = make_adj_map(&[(0u8, 1u8, 10u64), (0, 2, 1), (2, 3, 1), (3, 1, 1)]);
    assert_eq!(djikstra_adj_map(&adj, 0, 1), Some(vec![1, 3, 2, 0]));
}

#[test]
fn zero_weight_edges() {
    let adj = make_adj_map(&[(0u8, 1u8, 0u64), (1, 2, 0), (0, 2, 1)]);
    let p = djikstra_adj_map(&adj, 0, 2).unwrap();
    assert_eq!(p, vec![2, 1, 0]);
}

#[test]
fn open_grid_path() {
    let p = djikstra(|_: Coord, _: Coord| 1u64, |v: Coord| grid_neighbours(v, 5, &[]), (0, 0), (4, 4)).unwrap();
    assert_eq!(p.len(), 9);
    assert_eq!(p.windows(2).map(|_| 1u64).sum::<u64>(), 8);
    assert_eq!(p[0], (4, 4));
    assert_eq!(p[8], (0, 0));
    assert!(is_grid_walk(&p));
}

#[test]
fn enclosed_goal_is_unreachable() {
    let blocked = [(1, 2), (3, 2), (2, 1), (2, 3)];
    let p = djikstra(|_: Coord, _: Coord| 1u64, |v: Coord| grid_neighbours(v, 5, &blocked), (0, 0), (2, 2));
    assert_eq!(p, None);
}

#[test]
fn cap_stops_search_early() {
    let capped = djikstra_capped(|_: Coord, _: Coord| 1u64, |v: Coord| grid_neighbours(v, 20, &[]), (0, 0), (19, 19), 10);
    assert_eq!(capped, None);
    let free = djikstra(|_: Coord, _: Coord| 1u64, |v: Coord| grid_neighbours(v, 20, &[]), (0, 0), (19, 19)).unwrap();
    assert_eq!(free.len(), 39);
    let roomy = djikstra_capped(|_: Coord, _: Coord| 1u64, |v: Coord| grid_neighbours(v, 20, &[]), (0, 0), (19, 19), 100_000).unwrap();
    assert_eq!(roomy.len(), 39);
}

#[test]
fn cap_on_infinite_line() {
    let p = djikstra_capped(|_: i64, _: i64| 1u64, |v: i64| vec![v - 1, v + 1], 0i64, 5i64, 1000).unwrap();
    assert_eq!(p, vec![5, 4, 3, 2, 1, 0]);
    assert_eq!(djikstra_capped(|_: i64, _: i64| 1u64, |v: i64| vec![v - 1, v + 1], 0i64, 50i64, 20), None);
}

#[test]
fn repeated_searches_agree_on_cost() {
    let adj = make_adj_map(&[(0u8, 1u8, 1u64), (1, 3, 1), (0, 2, 1), (2, 3, 1)]);
    let first = djikstra_adj_map(&adj, 0, 3).unwrap();
    let second = djikstra_adj_map(&adj, 0, 3).unwrap();
    let cost = |p: &[u8]| -> u64 { p.windows(2).map(|w| adj.cost(w[1], w[0])).sum() };
    assert_eq!(cost(&first), 2);
    assert_eq!(cost(&first), cost(&second));
}

#[test]
fn weighted_closure_costs() {
    let cost = |a: u32, b: u32| -> u64 { if a + 1 == b { 1 } else { 5 } };
    let adjacent = |v: u32| -> Vec<u32> {
        if v < 6 { vec![v + 1, v + 2] } else { vec![] }
    };
    let p = djikstra(cost, adjacent, 0u32, 6u32).unwrap();
    assert_eq!(p, vec![6, 5, 4, 3, 2, 1, 0]);
}

#[test]
fn node_new_keeps_fields() {
    let n = DjikstraNode::new(7u128, 3usize);
    assert_eq!(n.priority, 7);
    assert_eq!(n.vertex, 3);
}

fn line_neighbours(v: i64) -> Vec<i64> {
    let mut out = Vec::new();
    if v > 0 {
        out.push(v - 1);
    }
    if v < 5 {
        out.push(v + 1);
    }
    out
}

#[test]
fn cap_of_zero_takes_nothing() {
    assert_eq!(djikstra_capped(|_: i64, _: i64| 1u64, line_neighbours, 3, 3, 0), None);
    assert_eq!(djikstra_capped(|_: i64, _: i64| 1u64, line_neighbours, 3, 3, 1), Some(vec![3]));
}

#[test]
fn cap_above_arc_count_finds_path() {
    // Vertices 0..=5 on a line have 10 arcs between them.
    let p = djikstra_capped(|_: i64, _: i64| 1u64, line_neighbours, 0, 5, 11).unwrap();
    assert_eq!(p, vec![5, 4, 3, 2, 1, 0]);
    assert_eq!(djikstra_capped(|_: i64, _: i64| 1u64, line_neighbours, 0, 9, 11), None);
}

#[test]
fn cap_stops_before_far_goal() {
    // Reaching 5 first takes the five vertices closer than it off the queue.
    assert_eq!(djikstra_capped(|_: i64, _: i64| 1u64, line_neighbours, 0, 5, 5), None);
    assert!(djikstra_capped(|_: i64, _: i64| 1u64, line_neighbours, 0, 5, 6).is_some());
}

#[test]
fn zero_weight_cycle_gives_simple_path() {
    let adj = make_adj_map(&[(0u8, 1u8, 0u64), (1, 2, 0), (2, 0, 0), (2, 3, 4), (0, 3, 4)]);
    let p = djikstra_adj_map(&adj, 0, 3).unwrap();
    let distinct: HashSet<u8> = p.iter().copied().collect();
    assert_eq!(distinct.len(), p.len());
    assert_eq!(p[0], 3);
    assert_eq!(*p.last().unwrap(), 0);
    let total: u64 = p.windows(2).map(|w| adj.cost(w[1], w[0])).sum();
    assert_eq!(total, 4);
}
