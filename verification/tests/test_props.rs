use community_walk_graph::new_graph;
use community_walk_graph::len;
use community_walk_graph::add_node;
use community_walk_graph::add_edge;
use community_walk_graph::remove_node;
use community_walk_graph::remove_edge;
use community_walk_graph::neighbors;
use community_walk_graph::random_walk;
use community_walk_graph::community;
use community_walk_graph::communities;
use community_walk_graph::communities_range;
use community_walk_graph::Graph;

fn ring20() -> Graph {
    let mut graph = new_graph();
    let mut i: u64 = 1;
    while i < 20 {
        add_edge(&mut graph, i, i + 1);
        i += 1;
    }
    add_edge(&mut graph, 20, 1);
    graph
}

fn sorted(mut v: Vec<u64>) -> Vec<u64> {
    v.sort();
    v
}

#[test]
fn add_edge_twice_records_each_side_once() {
    let mut graph = new_graph();
    add_edge(&mut graph, 1, 2);
    add_edge(&mut graph, 1, 2);
    assert_eq!(neighbors(&graph, 1, 1), vec![2]);
    assert_eq!(neighbors(&graph, 2, 1), vec![1]);
    assert_eq!(len(&graph), 2);
}

#[test]
fn removed_node_never_returned_by_queries() {
    let mut graph = new_graph();
    add_edge(&mut graph, 1, 2);
    add_edge(&mut graph, 2, 3);
    add_edge(&mut graph, 3, 4);
    add_edge(&mut graph, 2, 4);
    remove_node(&mut graph, 2);
    for start in [1u64, 3, 4] {
        for radius in 0usize..5 {
            assert!(!neighbors(&graph, start, radius).contains(&2));
        }
    }
    assert_eq!(len(&graph), 3);
}

#[test]
fn radius_zero_empty_radius_one_exact() {
    let graph = ring20();
    assert_eq!(neighbors(&graph, 1, 0), vec![]);
    assert_eq!(neighbors(&graph, 7, 0), vec![]);
    assert_eq!(neighbors(&graph, 999, 0), vec![]);
    assert_eq!(sorted(neighbors(&graph, 7, 1)), vec![6, 8]);
    assert_eq!(sorted(neighbors(&graph, 1, 1)), vec![2, 20]);
    assert_eq!(neighbors(&graph, 999, 1), vec![]);
}

#[test]
fn path_graph_neighbors_scenario() {
    let mut graph = new_graph();
    add_edge(&mut graph, 1, 2);
    add_edge(&mut graph, 2, 3);
    add_edge(&mut graph, 3, 4);
    add_edge(&mut graph, 4, 5);
    add_edge(&mut graph, 5, 6);
    assert_eq!(sorted(neighbors(&graph, 3, 1)), vec![2, 4]);
    assert_eq!(sorted(neighbors(&graph, 1, 3)), vec![2, 3, 4]);
}

#[test]
fn add_node_resets_an_existing_node() {
    let mut graph = new_graph();
    add_edge(&mut graph, 7, 8);
    add_edge(&mut graph, 7, 9);
    add_node(&mut graph, 7);
    // The list is reset, not merged; the former neighbours still hold
    // their now one-sided references.
    assert_eq!(neighbors(&graph, 7, 1), vec![]);
    assert_eq!(neighbors(&graph, 8, 1), vec![7]);
    assert_eq!(neighbors(&graph, 9, 1), vec![7]);
    assert_eq!(len(&graph), 3);
}

#[test]
fn removing_absent_things_is_a_no_op() {
    let mut graph = new_graph();
    add_edge(&mut graph, 1, 2);
    remove_node(&mut graph, 42);
    remove_edge(&mut graph, 1, 42);
    remove_edge(&mut graph, 41, 42);
    remove_edge(&mut graph, 1, 2);
    remove_edge(&mut graph, 1, 2);
    assert_eq!(len(&graph), 2);
    assert_eq!(neighbors(&graph, 1, 1), vec![]);
    assert_eq!(neighbors(&graph, 2, 1), vec![]);
}

#[test]
fn ring_walk_stays_within_walk_length() {
    let graph = ring20();
    let visited = random_walk(&graph, 1, 5, 10000);
    let allowed = [16u64, 17, 18, 19, 20, 1, 2, 3, 4, 5, 6];
    for (node, count) in &visited {
        assert!(allowed.contains(node), "node {} outside radius 5 of 1", node);
        assert!(*count >= 1);
        assert!(*count <= 10000 * 5);
    }
    // The start is revisited only on even steps, so it cannot dominate
    // its own histogram: a direct neighbour is seen strictly more often.
    let at_start = visited.get(&1).copied().unwrap_or(0);
    let at_next = visited.get(&2).copied().unwrap_or(0);
    assert!(at_start < at_next);
}

#[test]
fn walk_edge_cases_are_empty() {
    let mut graph = new_graph();
    add_edge(&mut graph, 1, 2);
    add_node(&mut graph, 9);
    assert!(random_walk(&graph, 1, 5, 0).is_empty());
    assert!(random_walk(&graph, 1, 0, 5).is_empty());
    assert!(random_walk(&graph, 9, 5, 5).is_empty());
    assert!(random_walk(&graph, 777, 5, 5).is_empty());
}

#[test]
fn two_node_walk_counts_are_deterministic() {
    let mut graph = new_graph();
    add_edge(&mut graph, 1, 2);
    // Every one-step walk from 1 lands on 2.
    let visited = random_walk(&graph, 1, 1, 100);
    assert_eq!(visited.get(&2).copied(), Some(100));
    assert_eq!(visited.get(&1).copied(), None);
    // The threshold is a strict greater-than: a count equal to the
    // threshold is excluded.
    assert_eq!(community(&graph, 1, 1, 100, 100), vec![]);
    assert_eq!(community(&graph, 1, 1, 100, 99), vec![2]);
}

#[test]
fn two_node_communities_are_deterministic() {
    let mut graph = new_graph();
    add_edge(&mut graph, 1, 2);
    // One seed on the two-node graph: each trial opens one window at 1
    // and credits (1, 2) at tick one and (1, 1) at tick two, then the
    // window closes.
    let r = communities(&graph, vec![1], 1, 50, 49);
    assert_eq!(r.len(), 1);
    assert_eq!(sorted(r[0].clone()), vec![1, 2]);
    let r = communities(&graph, vec![1], 1, 50, 50);
    assert_eq!(r, vec![Vec::<u64>::new()]);
}

#[test]
fn ring_communities_stay_near_their_seeds() {
    let graph = ring20();
    let seeds: Vec<u64> = (1..=20).collect();
    let r = communities(&graph, seeds.clone(), 5, 10000, 9900);
    assert_eq!(r.len(), 20);
    for (i, members) in r.iter().enumerate() {
        let seed = seeds[i] as i64;
        for node in members {
            let d = (*node as i64 - seed).rem_euclid(20).min((seed - *node as i64).rem_euclid(20));
            assert!(d <= 6, "node {} too far from seed {}", node, seed);
        }
    }
}

#[test]
fn saturated_threshold_gives_empty_communities() {
    let graph = ring20();
    let seeds: Vec<u64> = (1..=20).collect();
    // No pair can be credited more than window_length + 1 times per
    // trial, so this threshold can never be exceeded.
    let r = communities(&graph, seeds, 5, 1000, 6000);
    assert_eq!(r.len(), 20);
    for members in r {
        assert!(members.is_empty());
    }
}

#[test]
fn communities_zero_trials_are_empty() {
    let graph = ring20();
    let r = communities(&graph, vec![1, 2, 3], 5, 0, 0);
    assert_eq!(r, vec![Vec::<u64>::new(), Vec::new(), Vec::new()]);
}

#[test]
fn two_node_scales_are_deterministic() {
    let mut graph = new_graph();
    add_edge(&mut graph, 1, 2);
    // With bins 0 and 1, each trial credits (1, bin 0, 2) at elapsed
    // one and (1, bin 1, 1) at elapsed two; the credit at elapsed three
    // lands past the coarsest scale and is never read.
    let r = communities_range(&graph, vec![1], 0, 1, 10, 9);
    assert_eq!(r.len(), 1);
    assert_eq!(r[0].len(), 2);
    assert_eq!(r[0][0], vec![2]);
    assert_eq!(sorted(r[0][1].clone()), vec![1, 2]);
    // The same run with a threshold the counts cannot exceed.
    let r = communities_range(&graph, vec![1], 0, 1, 10, 10);
    assert_eq!(r, vec![vec![Vec::<u64>::new(), Vec::new()]]);
}

#[test]
fn scales_accumulate_counts_monotonically() {
    let graph = ring20();
    let seeds: Vec<u64> = vec![1, 6, 11];
    // Thresholding the cumulative counts with threshold zero exposes
    // the accumulated support; coarser scales can only gain members.
    let r = communities_range(&graph, seeds, 1, 3, 200, 0);
    assert_eq!(r.len(), 3);
    for per_seed in &r {
        assert_eq!(per_seed.len(), 3);
        for k in 0..per_seed.len() - 1 {
            for node in &per_seed[k] {
                assert!(per_seed[k + 1].contains(node), "support lost at a coarser scale");
            }
        }
    }
}

#[test]
fn isolated_and_absent_seeds_yield_empty_sets() {
    let mut graph = new_graph();
    add_edge(&mut graph, 1, 2);
    add_node(&mut graph, 9);
    // A window opened at a node with no neighbours closes before any
    // credit is handed out, so these seeds can never gather members.
    let r = communities(&graph, vec![9, 777], 3, 20, 0);
    assert_eq!(r, vec![Vec::<u64>::new(), Vec::new()]);
}

#[test]
fn scales_zero_trials_and_saturated_threshold_are_empty() {
    let mut graph = new_graph();
    add_edge(&mut graph, 1, 2);
    let r = communities_range(&graph, vec![1, 2], 0, 1, 0, 0);
    assert_eq!(r, vec![vec![Vec::<u64>::new(), Vec::new()], vec![Vec::new(), Vec::new()]]);
    // No pair can accumulate more than trials times (coarsest window
    // plus one) credits, so this threshold can never be exceeded.
    let r = communities_range(&graph, vec![1], 0, 1, 10, 30);
    assert_eq!(r, vec![vec![Vec::<u64>::new(), Vec::new()]]);
}

#[test]
fn reachable_seeds_always_gather_members_at_zero_threshold() {
    let graph = ring20();
    let r = communities(&graph, vec![5, 10], 2, 3, 0);
    assert_eq!(r.len(), 2);
    assert!(!r[0].is_empty());
    assert!(!r[1].is_empty());
    let r = communities_range(&graph, vec![5, 10], 1, 2, 3, 0);
    for per_seed in &r {
        for scale in per_seed {
            assert!(!scale.is_empty());
        }
    }
    let visited = random_walk(&graph, 5, 4, 7);
    assert!(!visited.is_empty());
    assert!(!community(&graph, 5, 4, 7, 0).is_empty());
}
