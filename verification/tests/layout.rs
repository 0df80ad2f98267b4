use layra::text::{char_advance, is_emoji};
use layra::layout::crossing::{layered, minimize, sort_by_barycenter};
use layra::layout::layering::{
    assign_layers, break_cycles, build_layering, insert_virtual_nodes, positions, Layering,
};

#[test]
fn back_edge_of_a_cycle_is_reversed() {
    let edges = vec![(0, 1), (1, 0)];
    assert_eq!(break_cycles(2, &edges), vec![false, true]);
}

#[test]
fn self_loop_is_never_reversed() {
    let edges = vec![(0, 0), (0, 1), (1, 2), (2, 0)];
    assert_eq!(break_cycles(3, &edges), vec![false, false, false, true]);
}

#[test]
fn chain_layers_progress() {
    let edges = vec![(0, 1), (1, 2)];
    let flipped = break_cycles(3, &edges);
    assert_eq!(assign_layers(3, &edges, &flipped), vec![0, 1, 2]);
}

#[test]
fn node_sits_below_its_deepest_predecessor() {
    // 0 -> 1 -> 2 and 0 -> 2: node 2 goes to layer 2, not 1.
    let edges = vec![(0, 1), (1, 2), (0, 2)];
    let flipped = break_cycles(3, &edges);
    assert_eq!(assign_layers(3, &edges, &flipped), vec![0, 1, 2]);
}

#[test]
fn cycle_gets_distinct_layers() {
    let lg = layered(2, &vec![(0, 1), (1, 0)], 8).unwrap();
    assert_ne!(lg.layer[0], lg.layer[1]);
}

#[test]
fn long_edge_is_split_by_a_virtual_node() {
    let edges = vec![(0, 1), (1, 2), (0, 2)];
    let lg = insert_virtual_nodes(vec![0, 1, 2], &edges);
    assert_eq!(lg.real_count, 3);
    assert_eq!(lg.layer, vec![0, 1, 2, 1]);
    assert_eq!(lg.edge_chains, vec![vec![0, 1], vec![1, 2], vec![0, 3, 2]]);
    assert_eq!(lg.succ, vec![vec![1, 3], vec![2], vec![], vec![2]]);
    assert_eq!(lg.pred, vec![vec![], vec![0], vec![1, 3], vec![0]]);
    assert_eq!(lg.layers, vec![vec![0], vec![1, 3], vec![2]]);
}

#[test]
fn upward_edge_keeps_its_own_direction_in_the_chain() {
    let edges = vec![(2, 0)];
    let lg = insert_virtual_nodes(vec![0, 1, 2], &edges);
    assert_eq!(lg.edge_chains, vec![vec![2, 3, 0]]);
    assert_eq!(lg.succ, vec![vec![3], vec![], vec![], vec![2]]);
}

#[test]
fn self_loop_chain_is_the_node_twice() {
    let lg = insert_virtual_nodes(vec![0], &vec![(0, 0)]);
    assert_eq!(lg.edge_chains, vec![vec![0, 0]]);
    assert_eq!(lg.layers, vec![vec![0]]);
}

#[test]
fn build_layering_runs_the_three_phases() {
    let lg = build_layering(3, &vec![(0, 1), (1, 2), (2, 0)]);
    // The back edge 2 -> 0 is reversed, so the chain 0, 1, 2 stays straight.
    assert_eq!(&lg.layer[..3], &[0, 1, 2]);
    assert_eq!(lg.edge_chains[2], vec![2, 3, 0]);
}

#[test]
fn positions_are_slots_within_layers() {
    let layers = vec![vec![2, 0], vec![1, 3]];
    assert_eq!(positions(&layers, 5), vec![1, 0, 0, 1, 0]);
}

#[test]
fn barycenter_sort_is_stable_and_exact() {
    let mut layer = vec![0, 1, 2];
    let neighbors = vec![vec![2], vec![0], vec![1]];
    let order = vec![0, 1, 2];
    assert!(sort_by_barycenter(&mut layer, &neighbors, &order));
    assert_eq!(layer, vec![1, 2, 0]);
    // Equal means keep their relative order, and nothing changes.
    let mut tied = vec![0, 1];
    let neighbors = vec![vec![0, 1], vec![1, 0]];
    assert!(!sort_by_barycenter(&mut tied, &neighbors, &[0, 1]));
    assert_eq!(tied, vec![0, 1]);
}

#[test]
fn sweeps_uncross_two_layers() {
    let mut lg = Layering {
        succ: vec![vec![3], vec![2], vec![], vec![]],
        pred: vec![vec![], vec![], vec![1], vec![0]],
        layer: vec![0, 0, 1, 1],
        real_count: 4,
        edge_chains: vec![vec![0, 3], vec![1, 2]],
        layers: vec![vec![0, 1], vec![2, 3]],
    };
    minimize(&mut lg, 8);
    assert_eq!(lg.layers, vec![vec![0, 1], vec![3, 2]]);
}

#[test]
fn layered_refuses_counts_it_cannot_index() {
    assert!(layered(usize::MAX, &vec![(0, 1)], 8).is_none());
    assert!(layered(0, &vec![], 8).is_some());
}

#[test]
fn emoji_code_points_are_recognised() {
    assert!(is_emoji('\u{1F680}'));
    assert!(is_emoji('\u{2601}'));
    assert!(is_emoji('\u{200D}'));
    assert!(is_emoji('\u{1F1FA}'));
    assert!(!is_emoji('a'));
    assert!(!is_emoji('\u{4E2D}'));
}

#[test]
fn advance_table_gives_milli_em_widths() {
    assert_eq!(char_advance('a'), 560);
    assert_eq!(char_advance('W'), 950);
    assert_eq!(char_advance('@'), 1020);
    assert_eq!(char_advance('7'), 560);
    assert_eq!(char_advance('i'), 240);
    assert_eq!(char_advance('\\'), 300);
    assert_eq!(char_advance('\u{1F600}'), 1200);
    assert_eq!(char_advance('\u{6F22}'), 1000);
    assert_eq!(char_advance('\u{E9}'), 560);
}
