use hanoi_core::graph::INFINITY;
use hanoi_core::traffic::{
    classify_status, flags_or_default, is_tertiary_or_above, major_road_flags, normal_segment_weight, pseudo_normal_arc_weight,
    segment_visible, ManifestError, ManifestRow, TrafficOverlay, TrafficStatus,
};

#[test]
fn status_thresholds() {
    assert_eq!(classify_status(100, 100), TrafficStatus::Green);
    assert_eq!(classify_status(100, 115), TrafficStatus::Green);
    assert_eq!(classify_status(100, 116), TrafficStatus::Yellow);
    assert_eq!(classify_status(100, 160), TrafficStatus::Yellow);
    assert_eq!(classify_status(100, 161), TrafficStatus::Red);
    assert_eq!(classify_status(0, 5000), TrafficStatus::Green);
    assert_eq!(classify_status(0, INFINITY), TrafficStatus::Red);
    assert_eq!(classify_status(7, u32::MAX), TrafficStatus::Red);
    // 23/20 is exactly 1.15.
    assert_eq!(classify_status(20, 23), TrafficStatus::Green);
    assert_eq!(classify_status(u32::MAX - 1, INFINITY - 1), TrafficStatus::Green);
}

#[test]
fn status_names_and_colors() {
    assert_eq!(TrafficStatus::Green.name(), "green");
    assert_eq!(TrafficStatus::Yellow.color(), "#f3c63f");
    assert_eq!(TrafficStatus::Red.color(), "#df5a43");
}

#[test]
fn major_road_classes() {
    assert!(is_tertiary_or_above("motorway"));
    assert!(is_tertiary_or_above("motorway_link"));
    assert!(is_tertiary_or_above("motorway_junction"));
    assert!(is_tertiary_or_above("tertiary_link"));
    assert!(is_tertiary_or_above("trunk"));
    assert!(!is_tertiary_or_above("residential"));
    assert!(!is_tertiary_or_above("_link"));
    assert!(!is_tertiary_or_above(""));
    assert!(!is_tertiary_or_above("primary_link_link"));
    assert!(!is_tertiary_or_above("Primary"));
}

#[test]
fn overlay_pseudo_weight_skips_missing_turns() {
    let offsets = vec![0, 0, 2, 3];
    let edges = vec![0, 5, 1];
    let weights = vec![40, 30];
    assert_eq!(pseudo_normal_arc_weight(0, 77, &weights, &offsets, &edges), 77);
    assert_eq!(pseudo_normal_arc_weight(1, 77, &weights, &offsets, &edges), 40);
    assert_eq!(pseudo_normal_arc_weight(2, 77, &weights, &offsets, &edges), 30);
    assert_eq!(pseudo_normal_arc_weight(1, 77, &vec![], &offsets, &edges), INFINITY);
}

#[test]
fn normal_segment_weight_falls_back_to_baseline() {
    let weights = vec![5, 6];
    assert_eq!(normal_segment_weight(1, 9, Some(&weights)), 6);
    assert_eq!(normal_segment_weight(4, 9, Some(&weights)), 9);
    assert_eq!(normal_segment_weight(0, 9, None), 9);
}

fn row(arc: Option<u32>, highway: Option<&str>) -> ManifestRow {
    ManifestRow { arc_id: arc, highway: highway.map(|s| s.to_string()) }
}

#[test]
fn manifest_flags_and_errors() {
    let batches = vec![vec![row(Some(1), Some("primary")), row(Some(0), Some("service"))], vec![row(Some(2), Some("trunk_link"))]];
    assert_eq!(major_road_flags(&batches, 3), Ok(vec![false, true, true]));

    let missing = vec![vec![row(Some(0), Some("primary"))]];
    assert_eq!(major_road_flags(&missing, 2), Err(ManifestError::MissingArc { missing_arc: 1 }));

    let dup = vec![vec![row(Some(0), Some("primary"))], vec![row(Some(0), Some("primary"))]];
    assert_eq!(major_road_flags(&dup, 1), Err(ManifestError::DuplicateArc { arc_id: 0 }));

    let out_of_range = vec![vec![row(Some(3), Some("primary"))]];
    assert_eq!(
        major_road_flags(&out_of_range, 3),
        Err(ManifestError::ArcOutOfRange { arc_id: 3, expected_arc_count: 3 })
    );

    let null = vec![vec![row(Some(0), Some("primary"))], vec![row(Some(1), Some("x")), row(None, Some("x"))]];
    assert_eq!(major_road_flags(&null, 3), Err(ManifestError::NullField { row: 1 }));
    let null_highway = vec![vec![row(Some(0), None)]];
    assert_eq!(major_road_flags(&null_highway, 1), Err(ManifestError::NullField { row: 0 }));
}

#[test]
fn flags_default_when_manifest_unusable() {
    assert_eq!(flags_or_default(Some(vec![false, true]), 2), (vec![false, true], true));
    assert_eq!(flags_or_default(None, 3), (vec![true, true, true], false));
}

#[test]
fn segment_filter() {
    assert!(segment_visible(true, true, true, true));
    assert!(!segment_visible(true, true, true, false));
    assert!(segment_visible(true, true, false, false));
    assert!(!segment_visible(false, false, false, true));
}

#[test]
fn overlay_buckets() {
    let overlay = TrafficOverlay::from_normal(&vec![100, 100, 100, 0], &vec![true, false, true, true], true);
    let in_view = vec![true, true, true, false];
    let r = overlay.render(&in_view, false, Some(&vec![100, 150, 200, 1]));
    assert_eq!((r.green.clone(), r.yellow.clone(), r.red.clone()), (vec![0], vec![1], vec![2]));
    let major = overlay.render(&in_view, true, Some(&vec![100, 150, 200, 1]));
    assert!(major.tertiary_and_above_only);
    assert_eq!((major.green, major.yellow, major.red), (vec![0], vec![], vec![2]));
    let baseline = overlay.render(&in_view, false, None);
    assert_eq!(baseline.green, vec![0, 1, 2]);
    assert!(overlay.tertiary_filter_supported());
}

#[test]
fn line_graph_overlay_uses_cheapest_turn() {
    // Two original arcs; line-graph turns 0: into arc 1, 1: into arc 1, 2: into arc 0.
    let overlay = TrafficOverlay::from_line_graph(&vec![10, 10], &vec![true, true], false, &vec![1, 1, 0]);
    let r = overlay.render(&vec![true, true], true, Some(&vec![30, 12, 11]));
    assert!(!r.tertiary_and_above_only);
    assert!(!r.tertiary_filter_supported);
    assert_eq!((r.green, r.yellow, r.red), (vec![0], vec![1], vec![]));
    let r = overlay.render(&vec![true, true], false, Some(&vec![30, 20, INFINITY]));
    assert_eq!((r.green, r.yellow, r.red), (vec![], vec![], vec![0, 1]));
}

#[test]
fn wider_view_draws_a_superset() {
    let overlay = TrafficOverlay::from_normal(&vec![10, 10, 10, 10], &vec![true, true, true, true], true);
    let narrow = overlay.render(&vec![false, true, false, true], false, Some(&vec![10, 30, 10, 12]));
    let wide = overlay.render(&vec![true, true, false, true], false, Some(&vec![10, 30, 10, 12]));
    assert!(narrow.green.iter().all(|i| wide.green.contains(i)));
    assert!(narrow.red.iter().all(|i| wide.red.contains(i)));
    assert!(narrow.green.len() + narrow.yellow.len() + narrow.red.len() <= wide.green.len() + wide.yellow.len() + wide.red.len());
}

#[test]
fn overlay_turn_index_is_the_incoming_index() {
    let lg_head = vec![2, 0, 2, 1, 5, 0];
    let travel_time = vec![7, 8, 9];
    let overlay = TrafficOverlay::from_line_graph(&travel_time, &vec![false, true, true], true, &lg_head);
    let (offsets, edges) = hanoi_core::route_eval::build_incoming_index(&lg_head, travel_time.len());
    assert_eq!(offsets, vec![0, 2, 3, 5]);
    assert_eq!(edges, vec![1, 5, 3, 0, 2]);
    match overlay {
        TrafficOverlay::LineGraphPseudoNormal { incoming_offsets, incoming_edges, .. } => {
            assert_eq!(incoming_offsets, offsets);
            assert_eq!(incoming_edges, edges);
        }
        _ => panic!("a line-graph overlay was expected"),
    }
}
