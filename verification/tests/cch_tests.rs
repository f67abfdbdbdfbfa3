use hanoi_core::cch::{CCHReconstrctor, ReversedGraph, CCH, CCHT, is_upward_csr, unpack_arc};
use hanoi_core::cch_cache::{CacheError, DirectedCCHReconstructor, Direction};
use hanoi_core::directed_cch::DirectedCCH;
use hanoi_core::graph::INFINITY;
use hanoi_core::node_order::NodeOrder;

/// The 4-cycle 0-1-2-3-0 with arcs in both directions.
fn square() -> (Vec<u32>, Vec<u32>) {
    (vec![0, 2, 4, 6, 8], vec![1, 3, 0, 2, 1, 3, 2, 0])
}

fn square_cch() -> CCH {
    let (first_out, head) = square();
    CCH::contract(&first_out, &head, NodeOrder::from_node_order(vec![0, 1, 2, 3])).unwrap()
}

#[test]
fn node_order_round_trip() {
    let order = NodeOrder::from_node_order(vec![2, 0, 3, 1]);
    assert_eq!(order.len(), 4);
    for rank in 0..4u32 {
        assert_eq!(order.rank(order.node(rank)), rank);
    }
    assert_eq!(order.ranks(), &vec![1, 3, 0, 2]);
    let again = NodeOrder::from_ranks(vec![1, 3, 0, 2]);
    assert_eq!(again.order(), &vec![2, 0, 3, 1]);
}

#[test]
fn contract_square_adds_fill_arc() {
    let cch = square_cch();
    assert_eq!(cch.first_out(), &vec![0, 2, 4, 5, 5]);
    assert_eq!(cch.head(), &vec![1, 3, 2, 3, 3]);
    assert_eq!(cch.num_nodes(), 4);
    assert_eq!(cch.num_arcs(), 5);
    assert_eq!(cch.degree(0), 2);
    assert_eq!(cch.degree(3), 0);
    assert_eq!(cch.edge_id_to_tail(3), 1);
    assert_eq!(cch.tail(), &vec![0, 0, 1, 1, 2]);
    assert_eq!(cch.neighbor_iter(1), vec![2, 3]);
    let range = cch.neighbor_edge_indices(1);
    assert_eq!((range.start, range.end), (2, 4));
    let range = cch.neighbor_edge_indices_usize(2);
    assert_eq!((range.start, range.end), (4, 5));
    assert_eq!(cch.elimination_tree(), &vec![Some(1), Some(2), Some(3), None]);
}

#[test]
fn contract_maps_arcs_back_to_input() {
    let cch = square_cch();
    let forward = cch.forward_cch_edge_to_orig_arc();
    assert_eq!(forward, &vec![vec![0], vec![1], vec![3], vec![], vec![5]]);
    let backward = cch.backward_cch_edge_to_orig_arc();
    assert_eq!(backward, &vec![vec![2], vec![7], vec![4], vec![], vec![6]]);
}

#[test]
fn fix_order_and_build_matches_contract() {
    let (first_out, head) = square();
    let cch = CCH::fix_order_and_build(&first_out, &head, NodeOrder::from_node_order(vec![0, 1, 2, 3])).unwrap();
    assert_eq!(cch.head(), square_cch().head());
}

#[test]
fn graph_and_order_determine_the_cch() {
    let (first_out, head) = square();
    let order = vec![2, 0, 3, 1];
    let a = CCH::fix_order_and_build(&first_out, &head, NodeOrder::from_node_order(order.clone())).unwrap();
    let b = CCH::contract(&first_out, &head, NodeOrder::from_node_order(order)).unwrap();
    assert_eq!(a.first_out(), b.first_out());
    assert_eq!(a.head(), b.head());
    assert_eq!(a.tail(), b.tail());
    assert_eq!(a.forward_cch_edge_to_orig_arc(), b.forward_cch_edge_to_orig_arc());
    assert_eq!(a.backward_cch_edge_to_orig_arc(), b.backward_cch_edge_to_orig_arc());
    assert_eq!(a.elimination_tree(), b.elimination_tree());
}

#[test]
fn contract_with_other_order() {
    let (first_out, head) = square();
    let cch = CCH::contract(&first_out, &head, NodeOrder::from_node_order(vec![1, 0, 2, 3])).unwrap();
    // Rank 0 is node 1 with neighbours 0 and 2 (ranks 1 and 2): fill arc 1-2.
    assert_eq!(cch.neighbor_iter(0), vec![1, 2]);
    assert_eq!(cch.neighbor_iter(1), vec![2, 3]);
}

#[test]
fn upward_csr_check() {
    assert!(is_upward_csr(&vec![0, 2, 4, 5, 5], &vec![1, 3, 2, 3, 3]));
    assert!(!is_upward_csr(&vec![0, 2, 4, 5, 5], &vec![3, 1, 2, 3, 3]));
    assert!(!is_upward_csr(&vec![0, 1], &vec![0]));
    assert!(!is_upward_csr(&vec![], &vec![]));
}

#[test]
fn reconstructor_rebuilds_cch() {
    let (first_out, head) = square();
    let rebuilt = CCHReconstrctor(&first_out, &head)
        .reconstruct_with(NodeOrder::from_node_order(vec![0, 1, 2, 3]), vec![0, 2, 4, 5, 5], vec![1, 3, 2, 3, 3])
        .unwrap();
    assert_eq!(rebuilt.tail(), square_cch().tail());
    let refused = CCHReconstrctor(&first_out, &head)
        .reconstruct_with(NodeOrder::from_node_order(vec![0, 1, 2, 3]), vec![0, 2, 4, 5, 5], vec![3, 1, 2, 3, 3]);
    assert!(refused.is_none());
}

#[test]
fn unpack_fill_arc_through_lowest_node() {
    let cch = square_cch();
    let upward = vec![5, 7, 1, 20, 2];
    let downward = vec![3, 4, 1, 20, 2];
    // Arc 1 -> 3 is a fill arc: 1 -> 0 (downward arc 0) then 0 -> 3 (upward arc 1).
    let found = unpack_arc(1, 3, 10, &upward, &downward, cch.inverted(), cch.inverted());
    assert_eq!(found, Some((0, 3, 7)));
    assert_eq!(unpack_arc(1, 3, 11, &upward, &downward, cch.inverted(), cch.inverted()), None);
}

#[test]
fn remove_always_infinity_drops_arcs_infinite_both_ways() {
    let cch = square_cch();
    let fw = vec![1, 1, 1, INFINITY, 1];
    let bw = vec![1, 1, 1, INFINITY, 1];
    let pruned = cch.remove_always_infinity(&fw, &bw);
    assert_eq!(pruned.head(), &vec![1, 3, 2, 3]);
    assert_eq!(pruned.first_out(), &vec![0, 2, 3, 4, 4]);
    // An arc finite in one direction stays.
    let bw_finite = vec![1, 1, 1, 9, 1];
    assert_eq!(cch.remove_always_infinity(&fw, &bw_finite).num_arcs(), 5);
}

fn directed() -> DirectedCCH {
    let cch = square_cch();
    cch.to_directed_cch(&vec![1, 1, 1, INFINITY, 1], &vec![1, INFINITY, 1, 1, 1])
}

#[test]
fn directed_cch_prunes_each_direction() {
    let d = directed();
    assert_eq!(d.num_nodes(), 4);
    assert_eq!(d.forward_head(), &vec![1, 3, 2, 3]);
    assert_eq!(d.forward_tail(), &vec![0, 0, 1, 2]);
    assert_eq!(d.backward_head(), &vec![1, 2, 3, 3]);
    assert_eq!(d.backward_first_out(), &vec![0, 1, 3, 4, 4]);
    assert_eq!(d.forward_cch_edge_to_orig_arc(), &vec![vec![0], vec![1], vec![3], vec![5]]);
    assert_eq!(d.elimination_tree(), &vec![Some(1), Some(2), Some(3), None]);
}

#[test]
fn store_and_load_round_trip() {
    let d = directed();
    let parts = d.to_parts().unwrap();
    assert_eq!(parts.elimination_tree, vec![1, 2, 3, u32::MAX]);
    assert_eq!(parts.fw_edge_to_orig_idx, vec![0, 1, 2, 3, 4]);
    let loaded = DirectedCCHReconstructor.reconstruct_with(parts).unwrap();
    assert_eq!(loaded.forward_first_out(), d.forward_first_out());
    assert_eq!(loaded.forward_head(), d.forward_head());
    assert_eq!(loaded.backward_head(), d.backward_head());
    assert_eq!(loaded.backward_tail(), d.backward_tail());
    assert_eq!(loaded.forward_cch_edge_to_orig_arc(), d.forward_cch_edge_to_orig_arc());
    assert_eq!(loaded.backward_cch_edge_to_orig_arc(), d.backward_cch_edge_to_orig_arc());
    assert_eq!(loaded.elimination_tree(), d.elimination_tree());
    assert_eq!(loaded.node_order().ranks(), d.node_order().ranks());
    assert_eq!(loaded.forward_inverted().edge_ids(), d.forward_inverted().edge_ids());
}

#[test]
fn loader_reports_first_failing_check() {
    let d = directed();
    let mut parts = d.to_parts().unwrap();
    parts.forward_first_out = vec![];
    assert_eq!(
        DirectedCCHReconstructor.reconstruct_with(parts).err(),
        Some(CacheError::FirstOutEmpty { dir: Direction::Forward })
    );

    let mut parts = d.to_parts().unwrap();
    parts.backward_first_out[0] = 1;
    assert_eq!(
        DirectedCCHReconstructor.reconstruct_with(parts).err(),
        Some(CacheError::FirstOutStart { dir: Direction::Backward })
    );

    let mut parts = d.to_parts().unwrap();
    parts.forward_head[0] = 9;
    assert_eq!(
        DirectedCCHReconstructor.reconstruct_with(parts).err(),
        Some(CacheError::HeadOutOfRange { dir: Direction::Forward, value: 9, num_nodes: 4 })
    );

    let mut parts = d.to_parts().unwrap();
    parts.ranks = vec![0, 1, 1, 3];
    assert_eq!(
        DirectedCCHReconstructor.reconstruct_with(parts).err(),
        Some(CacheError::RankDuplicate { rank: 1 })
    );

    let mut parts = d.to_parts().unwrap();
    parts.ranks = vec![0, 1, 7, 3];
    assert_eq!(
        DirectedCCHReconstructor.reconstruct_with(parts).err(),
        Some(CacheError::RankOutOfRange { rank: 7 })
    );

    let mut parts = d.to_parts().unwrap();
    parts.elimination_tree = vec![1, 0, 3, u32::MAX];
    assert_eq!(
        DirectedCCHReconstructor.reconstruct_with(parts).err(),
        Some(CacheError::EliminationTreeOrder { node: 1, parent: 0 })
    );

    let mut parts = d.to_parts().unwrap();
    parts.elimination_tree = vec![1, 2, 3];
    assert_eq!(
        DirectedCCHReconstructor.reconstruct_with(parts).err(),
        Some(CacheError::EliminationTreeLen { len: 3, expected: 4 })
    );

    let mut parts = d.to_parts().unwrap();
    parts.fw_edge_to_orig_idx = vec![0, 1];
    assert_eq!(
        DirectedCCHReconstructor.reconstruct_with(parts).err(),
        Some(CacheError::EdgeMapIdxLen { dir: Direction::Forward, len: 2, expected: 5 })
    );

    let mut parts = d.to_parts().unwrap();
    parts.bw_inverted_edge_ids[0] = 40;
    assert_eq!(
        DirectedCCHReconstructor.reconstruct_with(parts).err(),
        Some(CacheError::InvertedEdgeIdOutOfRange { dir: Direction::Backward, value: 40, num_edges: 4 })
    );

    let mut parts = d.to_parts().unwrap();
    parts.backward_first_out.pop();
    parts.backward_first_out.push(4);
    parts.backward_first_out.push(4);
    assert_eq!(DirectedCCHReconstructor.reconstruct_with(parts).err(), Some(CacheError::FirstOutLenMismatch));
}

#[test]
fn reversed_graph_from_parts_keeps_arrays() {
    let rev = ReversedGraph::from_parts(vec![0, 0, 1], vec![0], vec![0]);
    assert_eq!(rev.first_out(), &vec![0, 0, 1]);
    assert_eq!(rev.head_slice(), &vec![0]);
    assert_eq!(rev.num_arcs(), 1);
}

#[test]
fn both_prunings_keep_the_same_arcs() {
    let cch = square_cch();
    let fw = vec![1, 1, 1, INFINITY, INFINITY];
    let bw = vec![1, INFINITY, 1, 9, INFINITY];
    // Kept forward: arcs 0, 1, 2; kept backward: arcs 0, 2, 3; either: 0..=3.
    let pruned = cch.remove_always_infinity(&fw, &bw);
    let d = cch.to_directed_cch(&fw, &bw);
    assert_eq!(pruned.head(), &vec![1, 3, 2, 3]);
    assert_eq!(d.forward_head(), &vec![1, 3, 2]);
    assert_eq!(d.backward_head(), &vec![1, 2, 3]);
}
