use hanoi_core::route_eval::{
    build_incoming_index, check_route_count, geometry_distance_mode, join_issues, reconstruct_arc_ids, sum_weighted_arcs,
    validate_arc_ids, DistanceMode, LineGraphRouteEvaluator, NormalRouteEvaluator, ParsedRoute, RouteCountError,
    RouteEvaluator, RouteIssue, TravelTimeMode, MAX_ROUTE_EVALUATIONS,
};

/// Path graph 0 -> 1 -> 2 plus 2 -> 0: arcs 0: 0->1, 1: 1->2, 2: 2->0.
fn triangle() -> (Vec<u32>, Vec<u32>) {
    (vec![0, 1, 2, 3], vec![1, 2, 0])
}

fn route(arcs: Option<Vec<u32>>, nodes: Option<Vec<u32>>, lg: Option<Vec<u32>>, graph_type: Option<&str>, geometry_len: usize) -> ParsedRoute {
    ParsedRoute {
        export_graph_type: graph_type.map(|s| s.to_string()),
        route_arc_ids: arcs,
        weight_path_ids: lg,
        path_nodes: nodes,
        geometry_len,
    }
}

#[test]
fn validate_arc_ids_reports_first_out_of_range() {
    assert_eq!(validate_arc_ids(&vec![0, 2, 1], 3), Ok(vec![0, 2, 1]));
    assert_eq!(validate_arc_ids(&vec![0, 5, 7], 3), Err(RouteIssue::ArcOutOfGraph { arc: 5 }));
    assert_eq!(validate_arc_ids(&vec![], 0), Ok(vec![]));
}

#[test]
fn reconstruct_arc_ids_follows_path() {
    let (first_out, head) = triangle();
    assert_eq!(reconstruct_arc_ids(&first_out, &head, &vec![0, 1, 2, 0]), Ok(vec![0, 1, 2]));
    assert_eq!(reconstruct_arc_ids(&first_out, &head, &vec![1]), Ok(vec![]));
    assert_eq!(
        reconstruct_arc_ids(&first_out, &head, &vec![0, 2]),
        Err(RouteIssue::InvalidTransition { from: 0, to: 2 })
    );
    assert_eq!(
        reconstruct_arc_ids(&first_out, &head, &vec![0, 1, 7, 1]),
        Err(RouteIssue::InvalidTransition { from: 1, to: 7 })
    );
    assert_eq!(reconstruct_arc_ids(&first_out, &head, &vec![7, 1]), Err(RouteIssue::PathNodeOutOfGraph { node: 7 }));
}

#[test]
fn sum_weighted_arcs_saturates() {
    assert_eq!(sum_weighted_arcs(&vec![0, 1, 1], &vec![5, 7]), Ok(19));
    assert_eq!(sum_weighted_arcs(&vec![0, 0], &vec![u32::MAX - 1]), Ok(u32::MAX));
    assert_eq!(sum_weighted_arcs(&vec![0, 3, 9], &vec![5]), Err(RouteIssue::ArcOutsideWeights { arc: 3 }));
    assert_eq!(sum_weighted_arcs(&vec![], &vec![]), Ok(0));
}

#[test]
fn incoming_index_groups_turns_by_target_arc() {
    let (offsets, edges) = build_incoming_index(&vec![2, 0, 2, 5, 1], 3);
    assert_eq!(offsets, vec![0, 1, 2, 4]);
    assert_eq!(edges, vec![1, 4, 0, 2]);
}

#[test]
fn join_issues_uses_single_spaces() {
    assert_eq!(join_issues(vec![]), None);
    assert_eq!(join_issues(vec!["a.".to_string()]), Some("a.".to_string()));
    assert_eq!(join_issues(vec!["a.".to_string(), "b c.".to_string()]), Some("a. b c.".to_string()));
}

#[test]
fn route_count_limits() {
    assert_eq!(MAX_ROUTE_EVALUATIONS, 10);
    assert_eq!(check_route_count(0), Err(RouteCountError::NoRoutes));
    assert_eq!(check_route_count(1), Ok(()));
    assert_eq!(check_route_count(10), Ok(()));
    assert_eq!(check_route_count(11), Err(RouteCountError::TooManyRoutes));
}

#[test]
fn geometry_mode_depends_on_points() {
    assert_eq!(geometry_distance_mode(0), DistanceMode::Unavailable);
    assert_eq!(geometry_distance_mode(3), DistanceMode::Geometry);
}

#[test]
fn normal_evaluation() {
    let (first_out, head) = triangle();
    let ev = NormalRouteEvaluator::new(first_out, head);
    let weights = vec![10, 20, 30];

    let out = ev.evaluate(&route(Some(vec![0, 1]), None, None, None, 2), &weights);
    assert_eq!(out.travel_time_ms, Some(30));
    assert_eq!(out.travel_time_mode, TravelTimeMode::NormalArcSum);
    assert_eq!(out.distance_mode, DistanceMode::RouteArcIds);
    assert!(out.issues.is_empty());

    let out = ev.evaluate(&route(None, Some(vec![1, 2, 0]), None, None, 0), &weights);
    assert_eq!(out.route_arc_ids, Some(vec![1, 2]));
    assert_eq!(out.travel_time_ms, Some(50));
    assert_eq!(out.distance_mode, DistanceMode::PathNodes);

    let out = ev.evaluate(&route(Some(vec![4]), Some(vec![0, 1]), None, None, 5), &weights);
    assert_eq!(out.travel_time_ms, None);
    assert_eq!(out.travel_time_mode, TravelTimeMode::Unavailable);
    assert_eq!(out.distance_mode, DistanceMode::Geometry);
    assert_eq!(out.issues, vec![RouteIssue::ArcOutOfGraph { arc: 4 }, RouteIssue::NormalTravelTimeUnavailable]);

    let out = ev.evaluate(&route(Some(vec![2]), None, None, None, 0), &vec![1]);
    assert_eq!(
        out.issues,
        vec![RouteIssue::ArcOutsideWeights { arc: 2 }, RouteIssue::NormalTravelTimeUnavailable]
    );
}

/// Original graph: arcs 0: 0->1, 1: 1->2, 2: 2->0 (travel times 10, 20, 30).
/// Line graph: node per original arc plus split node 3 cloning arc 1;
/// turns 0->1 (id 0), 0->3 (id 1), 1->2 (id 2), 2->0 (id 3), 3->2 (id 4).
fn lg_evaluator() -> LineGraphRouteEvaluator {
    LineGraphRouteEvaluator::new(
        vec![0, 1, 2, 3],
        vec![1, 2, 0],
        vec![10, 20, 30],
        vec![0, 1, 2, 1],
        vec![0, 2, 3, 4, 5],
        vec![1, 3, 2, 0, 2],
    )
}

#[test]
fn pseudo_normal_weight_is_cheapest_turn_into_arc() {
    let ev = lg_evaluator();
    let weights = vec![7, 4, 9, 8, 6];
    // Turns into original arc 2 are ids 2 and 4 (weights 9 and 6).
    assert_eq!(ev.pseudo_normal_arc_weight(2, &weights), Ok(6));
    // Turns into arc 1: id 0 (weight 7).
    assert_eq!(ev.pseudo_normal_arc_weight(1, &weights), Ok(7));
    assert_eq!(ev.pseudo_normal_arc_weight(5, &weights), Err(RouteIssue::ArcOutsideOriginal { arc: 5 }));
    assert_eq!(
        ev.pseudo_normal_arc_weight(2, &vec![7]),
        Err(RouteIssue::MissingPseudoNormalTransition { edge: 2 })
    );
    assert_eq!(ev.pseudo_normal_arc_weight(0, &weights), Ok(8));
    assert_eq!(ev.sum_pseudo_normal_arcs(&vec![1, 2], &weights), Ok(13));
}

#[test]
fn exact_replay_of_line_graph_path() {
    let ev = lg_evaluator();
    let weights = vec![7, 4, 9, 8, 6];
    // travel time of node 0 (10) + turn 0->3 (4) + turn 3->2 (6).
    assert_eq!(ev.sum_exact_line_graph_path(&vec![0, 3, 2], &weights), Ok(20));
    assert_eq!(ev.sum_exact_line_graph_path(&vec![], &weights), Ok(0));
    assert_eq!(
        ev.sum_exact_line_graph_path(&vec![0, 2], &weights),
        Err(RouteIssue::InvalidLineGraphTransition { from: 0, to: 2 })
    );
    assert_eq!(
        ev.sum_exact_line_graph_path(&vec![9], &weights),
        Err(RouteIssue::LineGraphNodeOutOfDataset { node: 9 })
    );
    assert_eq!(
        ev.sum_exact_line_graph_path(&vec![0, 1], &vec![]),
        Err(RouteIssue::MissingReplayTransition { edge: 0 })
    );
    assert_eq!(ev.map_line_graph_nodes_to_original_arcs(&vec![0, 3, 2]), Ok(vec![0, 1, 2]));
    assert_eq!(
        ev.map_line_graph_nodes_to_original_arcs(&vec![0, 4]),
        Err(RouteIssue::LineGraphNodeOutOfDataset { node: 4 })
    );
}

#[test]
fn line_graph_evaluation_modes() {
    let ev = lg_evaluator();
    let weights = vec![7, 4, 9, 8, 6];

    let out = ev.evaluate(&route(None, None, Some(vec![0, 3, 2]), Some("line_graph"), 0), &weights);
    assert_eq!(out.travel_time_ms, Some(20));
    assert_eq!(out.travel_time_mode, TravelTimeMode::ExactWeightPath);
    assert_eq!(out.distance_mode, DistanceMode::WeightPathIds);
    assert_eq!(out.route_arc_ids, Some(vec![0, 1, 2]));

    // Not a line-graph export: the node path is ignored.
    let out = ev.evaluate(&route(None, None, Some(vec![0, 3, 2]), Some("normal"), 0), &weights);
    assert_eq!(out.travel_time_ms, None);
    assert_eq!(out.distance_mode, DistanceMode::Unavailable);
    assert_eq!(out.issues, vec![RouteIssue::LineGraphTravelTimeUnavailable]);

    // Arc ids fall back to the pseudo-normal sum.
    let out = ev.evaluate(&route(Some(vec![1, 2]), None, None, None, 0), &weights);
    assert_eq!(out.travel_time_ms, Some(13));
    assert_eq!(out.travel_time_mode, TravelTimeMode::LineGraphPseudoNormal);

    // A failing replay falls back too, and records why.
    let out = ev.evaluate(&route(Some(vec![1, 2]), None, Some(vec![0, 2]), Some("line_graph"), 0), &weights);
    assert_eq!(out.travel_time_ms, Some(13));
    assert_eq!(out.issues, vec![RouteIssue::InvalidLineGraphTransition { from: 0, to: 2 }]);
}

#[test]
fn evaluator_dispatch() {
    let (first_out, head) = triangle();
    let normal = RouteEvaluator::Normal(NormalRouteEvaluator::new(first_out, head));
    assert_eq!(normal.graph_type(), "normal");
    let lg = RouteEvaluator::LineGraph(lg_evaluator());
    assert_eq!(lg.graph_type(), "line_graph");
    let outs = normal.evaluate_routes(&vec![route(Some(vec![0]), None, None, None, 0), route(None, None, None, None, 0)], &vec![3, 4, 5]);
    assert_eq!(outs.len(), 2);
    assert_eq!(outs[0].travel_time_ms, Some(3));
    assert_eq!(outs[1].travel_time_ms, None);
}

#[test]
fn reconstruct_arc_ids_with_offsets_short_of_the_heads() {
    // The offsets end before the last head: that head belongs to no node.
    let first_out = vec![0, 1, 2];
    let head = vec![1, 0, 1];
    assert_eq!(reconstruct_arc_ids(&first_out, &head, &vec![0, 1, 0]), Ok(vec![0, 1]));
    assert!(reconstruct_arc_ids(&first_out, &head, &vec![1, 1]).is_err());
    assert!(reconstruct_arc_ids(&vec![], &vec![], &vec![0, 1]).is_err());
    assert_eq!(reconstruct_arc_ids(&vec![], &vec![], &vec![7]), Ok(vec![]));
}
