use hanoi_core::cch::{CCH, CCHT};
use hanoi_core::cch_cache::Direction;
use hanoi_core::customized::{Customized, CustomizedBasic, CustomizedPerfect, OwnedGraph};
use hanoi_core::graph::INFINITY;
use hanoi_core::line_graph::{check_roundabout_flags, extend_arc_mapping, validate_edge_mappings, LineGraphError, LineGraphMapping};
use hanoi_core::multi_route::{
    arc_set, cumulative_costs, reconstruct_path, unpack_edge_recursive, has_repeated_nodes, local_optimality_step, local_optimality_verdict, shared_arcs, t_interval, too_similar,
    too_similar_to_any, LocalOptStep,
};
use hanoi_core::node_order::NodeOrder;

#[test]
fn arc_mapping_extends_with_split_nodes() {
    assert_eq!(extend_arc_mapping(3, &vec![1, 0], 5), Ok(vec![0, 1, 2, 1, 0]));
    assert_eq!(
        extend_arc_mapping(3, &vec![1, 3], 5),
        Err(LineGraphError::SplitMapOutOfRange { original: 3, num_original_edges: 3 })
    );
    assert_eq!(
        extend_arc_mapping(3, &vec![1], 5),
        Err(LineGraphError::MappingLengthMismatch { len: 4, num_lg_nodes: 5 })
    );
    assert_eq!(check_roundabout_flags(4, 4), Ok(()));
    assert_eq!(check_roundabout_flags(3, 4), Err(LineGraphError::RoundaboutLengthMismatch { len: 3, num_lg_nodes: 4 }));
}

#[test]
fn edge_mappings_must_name_metric_arcs() {
    let first_out = vec![0, 2, 4, 6, 8];
    let head = vec![1, 3, 0, 2, 1, 3, 2, 0];
    let cch = CCH::contract(&first_out, &head, NodeOrder::from_node_order(vec![0, 1, 2, 3])).unwrap();
    let d = cch.to_directed_cch(&vec![1; 5], &vec![1; 5]);
    assert_eq!(validate_edge_mappings(&d, 8), Ok(()));
    assert_eq!(
        validate_edge_mappings(&d, 5),
        Err(LineGraphError::EdgeMapping { dir: Direction::Forward, edge_idx: 4, arc: 5, num_metric_edges: 5 })
    );
    assert_eq!(
        validate_edge_mappings(&d, 6),
        Err(LineGraphError::EdgeMapping { dir: Direction::Backward, edge_idx: 1, arc: 7, num_metric_edges: 6 })
    );
}

/// Original graph: arcs 0: 0->1, 1: 1->0, 2: 1->2 (travel times 4, 5, 6);
/// line-graph nodes 0..3 are the arcs, node 3 clones arc 2.
fn mapping() -> LineGraphMapping {
    LineGraphMapping::new(vec![0, 1, 3, 3], vec![1, 0, 2], vec![4, 5, 6], vec![0, 1, 2, 2])
}

#[test]
fn line_graph_nodes_map_to_original_arcs() {
    let m = mapping();
    assert_eq!(m.original_arc_id(3), 2);
    assert_eq!(m.lg_tail_node(3), 1);
    assert_eq!(m.lg_head_node(3), 2);
    assert_eq!(m.lg_travel_time(1), 5);
    assert!(m.has_reverse_edge(0));
    assert!(m.has_reverse_edge(1));
    assert!(!m.has_reverse_edge(2));
    assert_eq!(m.source_corrected_distance(10, 0), Some(14));
    assert_eq!(m.source_corrected_distance(INFINITY, 0), None);
    assert_eq!(m.source_corrected_distance(INFINITY - 1, 2), Some(INFINITY + 5));
}

#[test]
fn materialized_paths() {
    let m = mapping();
    let full = m.materialize_lg_path(&vec![0, 3], false).unwrap();
    assert_eq!(full.route_arc_ids, vec![0, 2]);
    assert_eq!(full.weight_path_ids, vec![0, 3]);
    assert_eq!(full.path, vec![0, 1, 2]);
    let trimmed = m.materialize_lg_path(&vec![1, 0, 3], true).unwrap();
    assert_eq!(trimmed.route_arc_ids, vec![0]);
    assert_eq!(trimmed.path, vec![0, 1]);
    let short = m.materialize_lg_path(&vec![0, 3], true).unwrap();
    assert!(short.route_arc_ids.is_empty());
    assert_eq!(short.path, vec![1]);
    assert!(m.materialize_lg_path(&vec![], false).is_none());
}

#[test]
fn repeated_nodes() {
    assert!(!has_repeated_nodes(&vec![1, 2, 3]));
    assert!(has_repeated_nodes(&vec![1, 2, 1]));
    assert!(!has_repeated_nodes(&vec![]));
}

#[test]
fn sharing_of_arcs() {
    let main = arc_set(&vec![1, 2, 3, 4, 5]);
    assert_eq!(shared_arcs(&vec![1, 2, 3, 9, 5], &main), (2, 4));
    assert_eq!(shared_arcs(&vec![7], &main), (0, 0));
    assert!(too_similar(0, 0));
    assert!(too_similar(5, 6));
    assert!(!too_similar(4, 5));
    assert!(!too_similar(2, 4));
    assert!(too_similar_to_any(&vec![1, 2, 3, 4, 5], &vec![main]));
    assert!(!too_similar_to_any(&vec![1, 2, 3, 9, 5], &vec![arc_set(&vec![1, 2, 3, 4, 5])]));
}

#[test]
fn t_test_pieces() {
    let cum = cumulative_costs(&vec![10, 10, 10, 10]);
    assert_eq!(cum, vec![0, 10, 20, 30, 40]);
    assert_eq!(cumulative_costs(&vec![u32::MAX, 1]), vec![0, u32::MAX, u32::MAX]);
    // Via position 2 (cost 20), best distance 40: a quarter is 10.
    assert_eq!(t_interval(&cum, 2, 40), (1, 3));
    assert_eq!(t_interval(&cum, 2, 400), (0, 4));
    assert_eq!(local_optimality_step(5, Some(2), 400, &vec![10, 10, 10, 10]), LocalOptStep::Accept);
    assert_eq!(
        local_optimality_step(5, Some(2), 40, &vec![10, 10, 10, 10]),
        LocalOptStep::Query { v_prime_pos: 1, v_double_pos: 3, subpath_cost: 20 }
    );
    assert_eq!(local_optimality_step(2, Some(0), 40, &vec![10]), LocalOptStep::Accept);
    assert_eq!(local_optimality_step(5, None, 40, &vec![10, 10, 10, 10]), LocalOptStep::Accept);
    assert!(local_optimality_verdict(22, 20));
    assert!(!local_optimality_verdict(23, 20));
    assert!(local_optimality_verdict(10, 10));
    assert!(!local_optimality_verdict(1, INFINITY));
    // 11 * 9 / 10 rounds down to 9.
    assert!(!local_optimality_verdict(10, 9));
}

#[test]
fn customized_weights_and_unpacking() {
    let first_out = vec![0, 2, 4, 6, 8];
    let head = vec![1, 3, 0, 2, 1, 3, 2, 0];
    let cch = CCH::contract(&first_out, &head, NodeOrder::from_node_order(vec![0, 1, 2, 3])).unwrap();
    let up_unpacking = vec![(None, None), (None, None), (None, None), (Some(0), Some(1)), (None, None)];
    let c = CustomizedBasic::new(&cch, vec![5, 7, 1, 10, 2], vec![3, 4, 1, 10, 2], up_unpacking.clone(), up_unpacking);
    assert_eq!(c.unpack_outgoing(3), Some((0, 1, 0)));
    assert_eq!(c.unpack_incoming(0), None);
    assert_eq!(c.forward_graph().weight, &vec![5, 7, 1, 10, 2]);
    assert_eq!(c.backward_graph().head, cch.head());
    assert_eq!(c.forward_tail(), &vec![0, 0, 1, 1, 2]);
    assert_eq!(c.cch().num_cch_nodes(), 4);
    let (up, down) = c.into_weights();
    assert_eq!(up, vec![5, 7, 1, 10, 2]);
    assert_eq!(down, vec![3, 4, 1, 10, 2]);

    let perfect = CustomizedPerfect::reconstruct_with(
        &cch,
        OwnedGraph::new(vec![0, 2, 3, 3], vec![1, 2, 2], vec![1, 2, 3]),
        OwnedGraph::new(vec![0, 1, 1, 1], vec![1], vec![4]),
        vec![(None, None); 3],
        vec![(None, None)],
    );
    assert_eq!(perfect.forward_tail(), &vec![0, 0, 1]);
    assert_eq!(perfect.backward_tail(), &vec![0]);
    assert_eq!(perfect.forward_graph().weight, &vec![1, 2, 3]);
    assert_eq!(perfect.unpack_outgoing(0), None);
}

#[test]
fn reconstruct_path_unpacks_shortcuts() {
    let first_out = vec![0, 2, 4, 6, 8];
    let head = vec![1, 3, 0, 2, 1, 3, 2, 0];
    let cch = CCH::contract(&first_out, &head, NodeOrder::from_node_order(vec![0, 1, 2, 3])).unwrap();
    let unpacking = vec![(None, None), (None, None), (None, None), (Some(0), Some(1)), (None, None)];
    let c = CustomizedBasic::new(&cch, vec![5, 7, 1, 10, 2], vec![3, 4, 1, 10, 2], unpacking.clone(), unpacking);
    let mut interior = vec![];
    unpack_edge_recursive(1, 3, 3, &c, &mut interior);
    assert_eq!(interior, vec![0]);
    let fw_parents = vec![(4, 5), (4, 5), (4, 5), (1, 3)];
    let bw_parents = vec![(4, 5); 4];
    assert_eq!(reconstruct_path(&c, &fw_parents, &bw_parents, 1, 3, 3), vec![1, 0, 3]);
    // A node that is its own parent breaks the walk.
    let looping = vec![(4, 5), (4, 5), (4, 5), (3, 3)];
    assert!(reconstruct_path(&c, &looping, &bw_parents, 1, 3, 3).is_empty());
    // Backward half: 1 -> 2 via arc 2, then 2 -> 3 via arc 4.
    let bw = vec![(4, 5), (2, 2), (3, 4), (4, 5)];
    assert_eq!(reconstruct_path(&c, &fw_parents, &bw, 1, 3, 1), vec![1, 2, 3]);
}
