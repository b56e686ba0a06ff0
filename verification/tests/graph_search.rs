use std::collections::HashMap;

use hutspot::graph::find_shortest_cycle;
use hutspot::graph::find_shortest_path;

type Cache = HashMap<usize, Vec<(usize, u32)>>;

fn ring_neighbors(v: usize) -> Vec<usize> {
    match v {
        0 => vec![1],
        1 => vec![2],
        2 => vec![3],
        3 => vec![0],
        _ => Vec::new(),
    }
}

fn undirected_ring_neighbors(v: usize) -> Vec<usize> {
    match v {
        0 => vec![1, 3],
        1 => vec![2, 0],
        2 => vec![3, 1],
        3 => vec![0, 2],
        _ => Vec::new(),
    }
}

#[test]
fn opposite_corners_of_a_square_are_two_apart() {
    let mut cache: Cache = HashMap::new();
    let nf = |v: usize| undirected_ring_neighbors(v);
    let wf = |_u: usize, _v: usize| 1u32;
    let (path, cost) = find_shortest_path(0, 2, &nf, &wf, &mut cache).unwrap();
    assert_eq!(cost, 2);
    assert_eq!(path.len(), 3);
    assert_eq!(path[0], 0);
    assert_eq!(path[2], 2);
    assert!(path[1] == 1 || path[1] == 3);
}

#[test]
fn cycle_through_a_directed_ring_is_the_whole_ring() {
    let mut cache: Cache = HashMap::new();
    let nf = |v: usize| ring_neighbors(v);
    let wf = |_u: usize, _v: usize| 1u32;
    let (cycle, cost) = find_shortest_cycle(0, &nf, &wf, &mut cache).unwrap();
    assert_eq!(cycle, vec![0, 1, 2, 3, 0]);
    assert_eq!(cost, 4);
}

#[test]
fn path_to_itself_is_trivial() {
    let mut cache: Cache = HashMap::new();
    let nf = |_v: usize| Vec::new();
    let wf = |_u: usize, _v: usize| 1u32;
    let (path, cost) = find_shortest_path(3, 3, &nf, &wf, &mut cache).unwrap();
    assert_eq!(path, vec![3]);
    assert_eq!(cost, 0);
}

#[test]
fn unreachable_target_gives_none() {
    let mut cache: Cache = HashMap::new();
    let nf = |v: usize| if v == 0 { vec![1] } else { Vec::new() };
    let wf = |_u: usize, _v: usize| 1u32;
    assert!(find_shortest_path(0, 5, &nf, &wf, &mut cache).is_none());
}

#[test]
fn vertex_without_neighbors_has_no_cycle() {
    let mut cache: Cache = HashMap::new();
    let nf = |_v: usize| Vec::new();
    let wf = |_u: usize, _v: usize| 1u32;
    assert!(find_shortest_cycle(0, &nf, &wf, &mut cache).is_none());
}

#[test]
fn self_loop_is_a_two_entry_cycle() {
    let mut cache: Cache = HashMap::new();
    let nf = |v: usize| if v == 0 { vec![0] } else { Vec::new() };
    let wf = |_u: usize, _v: usize| 7u32;
    let (cycle, cost) = find_shortest_cycle(0, &nf, &wf, &mut cache).unwrap();
    assert_eq!(cycle, vec![0, 0]);
    assert_eq!(cost, 7);
}

#[test]
fn tied_cycles_go_to_the_first_listed_neighbor() {
    let mut cache: Cache = HashMap::new();
    // Both neighbours of 0 close a cycle of cost 2; the first listed wins.
    let nf = |v: usize| match v {
        0 => vec![2, 1],
        1 => vec![0],
        2 => vec![0],
        _ => Vec::new(),
    };
    let wf = |_u: usize, _v: usize| 1u32;
    let (cycle, cost) = find_shortest_cycle(0, &nf, &wf, &mut cache).unwrap();
    assert_eq!(cycle, vec![0, 2, 0]);
    assert_eq!(cost, 2);
}

#[test]
fn seeded_cache_entries_win_over_the_closures() {
    let mut cache: Cache = HashMap::new();
    cache.insert(0, vec![(9, 1)]);
    // The closures describe a different graph, but the seeded entry for
    // vertex 0 must be reused, not recomputed.
    let nf = |v: usize| if v == 0 { vec![1] } else { Vec::new() };
    let wf = |_u: usize, _v: usize| 5u32;
    let (path, cost) = find_shortest_path(0, 9, &nf, &wf, &mut cache).unwrap();
    assert_eq!(path, vec![0, 9]);
    assert_eq!(cost, 1);
    assert_eq!(cache.get(&0), Some(&vec![(9, 1)]));
}

#[test]
fn repeated_searches_share_the_cache() {
    let mut cache: Cache = HashMap::new();
    let nf = |v: usize| undirected_ring_neighbors(v);
    let wf = |u: usize, v: usize| (u + v) as u32;
    let first = find_shortest_path(0, 2, &nf, &wf, &mut cache).unwrap();
    let entries_after_first = cache.len();
    let second = find_shortest_path(0, 2, &nf, &wf, &mut cache).unwrap();
    assert_eq!(first, second);
    assert_eq!(cache.len(), entries_after_first);
}

#[test]
fn cheaper_detour_beats_the_direct_edge() {
    let mut cache: Cache = HashMap::new();
    let nf = |v: usize| match v {
        0 => vec![1, 2],
        1 => vec![2],
        _ => Vec::new(),
    };
    // Direct edge 0 -> 2 costs 10; the detour through 1 costs 2.
    let wf = |u: usize, v: usize| if u == 0 && v == 2 { 10u32 } else { 1u32 };
    let (path, cost) = find_shortest_path(0, 2, &nf, &wf, &mut cache).unwrap();
    assert_eq!(path, vec![0, 1, 2]);
    assert_eq!(cost, 2);
}
