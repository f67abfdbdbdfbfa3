use hanoi_core::api::{
    backend_info_url, backend_query_url, check_weights, info_profile, resolve_path_choice, weights_from_body, CustomizeError,
    PathChoice,
};
use hanoi_core::dataset::generate_random_queries;
use hanoi_core::bench::{count_totals, parse_format, BenchmarkConfig, MeasurementCounts, ReportFormat};
use hanoi_core::engine::{engine_step, query_kind, response_format, QueryKind, Received, ResponseFormat};
use hanoi_core::geometry::{is_roundabout_direction, with_roundabout_prefix, TurnDirection};
use hanoi_core::graph::{edges_incident_to, INFINITY};
use hanoi_core::graph_data::{graph_check, GraphError};

#[test]
fn roundabout_prefix() {
    assert_eq!(with_roundabout_prefix(TurnDirection::Left, true), TurnDirection::RoundaboutLeft);
    assert_eq!(with_roundabout_prefix(TurnDirection::Left, false), TurnDirection::Left);
    assert_eq!(with_roundabout_prefix(TurnDirection::RoundaboutUTurn, true), TurnDirection::RoundaboutUTurn);
    let once = with_roundabout_prefix(TurnDirection::SharpRight, true);
    assert_eq!(with_roundabout_prefix(once, true), once);
    assert!(is_roundabout_direction(once));
    assert!(!is_roundabout_direction(TurnDirection::Straight));
}

#[test]
fn customize_body_decoding() {
    let mut body = Vec::new();
    for w in [5u32, INFINITY, 0] {
        body.extend_from_slice(&w.to_le_bytes());
    }
    assert_eq!(weights_from_body(&body, 3), Ok(vec![5, INFINITY, 0]));
    assert_eq!(
        weights_from_body(&body, 2),
        Err(CustomizeError::BodyLength { expected: 8, got: 12 })
    );
    let mut bad = Vec::new();
    for w in [1u32, INFINITY + 1, u32::MAX] {
        bad.extend_from_slice(&w.to_le_bytes());
    }
    assert_eq!(
        weights_from_body(&bad, 3),
        Err(CustomizeError::WeightTooLarge { pos: 1, value: INFINITY + 1 })
    );
    assert_eq!(check_weights(&vec![]), Ok(()));
    // Bytes are little-endian whatever the machine.
    assert_eq!(weights_from_body(&vec![1, 2, 3, 4, 0xff, 0xff, 0xff, 0x7f], 2), Ok(vec![0x0403_0201, INFINITY]));
    assert_eq!(
        weights_from_body(&vec![0, 0, 0, 0x80], 1),
        Err(CustomizeError::WeightTooLarge { pos: 0, value: 0x8000_0000 })
    );
}

#[test]
fn gateway_urls() {
    assert_eq!(backend_query_url("http://a:1", &None, false), "http://a:1/query");
    assert_eq!(backend_query_url("http://a:1", &Some("json".to_string()), false), "http://a:1/query?format=json");
    assert_eq!(backend_query_url("http://a:1", &Some("geojson".to_string()), true), "http://a:1/query?format=geojson&colors");
    assert_eq!(backend_query_url("http://a:1", &None, true), "http://a:1/query?colors");
    assert_eq!(backend_info_url("http://b"), "http://b/info");
}

#[test]
fn info_profile_defaults() {
    let profiles = vec!["bike".to_string(), "car".to_string()];
    assert_eq!(info_profile(&Some("truck".to_string()), &profiles), "truck");
    assert_eq!(info_profile(&None, &profiles), "bike");
    assert_eq!(info_profile(&None, &vec![]), "car");
}

#[test]
fn path_choice() {
    assert_eq!(resolve_path_choice(true, false, true), PathChoice::AsGiven);
    assert_eq!(resolve_path_choice(false, true, true), PathChoice::AsGiven);
    assert_eq!(resolve_path_choice(false, false, true), PathChoice::RepoRelative);
    assert_eq!(resolve_path_choice(false, false, false), PathChoice::AsGiven);
}

#[test]
fn bench_defaults_and_formats() {
    let c = BenchmarkConfig::default();
    assert_eq!((c.warmup_iterations, c.measured_iterations, c.query_count, c.seed), (3, 10, 1000, 42));
    assert_eq!(parse_format("json"), ReportFormat::Json);
    assert_eq!(parse_format("JSON"), ReportFormat::Json);
    assert_eq!(parse_format("Csv"), ReportFormat::Csv);
    assert_eq!(parse_format("table"), ReportFormat::Table);
    assert_eq!(parse_format("jsonl"), ReportFormat::Table);
    assert_eq!(parse_format(""), ReportFormat::Table);
}

#[test]
fn graph_array_checks() {
    assert_eq!(graph_check(&vec![0, 1, 2], 2, 2, 2, 2), Ok(()));
    assert_eq!(graph_check(&vec![], 0, 0, 0, 0), Err(GraphError::NoSentinel));
    assert_eq!(graph_check(&vec![0, 1, 3], 2, 2, 2, 2), Err(GraphError::SentinelMismatch { sentinel: 3, num_edges: 2 }));
    assert_eq!(graph_check(&vec![0, 1, 2], 2, 2, 1, 2), Err(GraphError::LatitudeLen { len: 1, num_nodes: 2 }));
    assert_eq!(graph_check(&vec![0, 1, 2], 2, 2, 2, 3), Err(GraphError::LongitudeLen { len: 3, num_nodes: 2 }));
    assert_eq!(graph_check(&vec![0, 1, 2], 2, 5, 2, 2), Err(GraphError::TravelTimeLen { len: 5, num_edges: 2 }));
}

#[test]
fn engine_decisions() {
    assert_eq!(query_kind(true, true, true, true, Some(1), Some(2)), QueryKind::Coordinates);
    assert_eq!(query_kind(true, false, true, true, Some(1), Some(2)), QueryKind::Nodes { from: 1, to: 2 });
    assert_eq!(query_kind(false, false, false, false, Some(1), None), QueryKind::Unanswerable);
    assert_eq!(response_format(Some("json")), ResponseFormat::Json);
    assert_eq!(response_format(Some("geojson")), ResponseFormat::GeoJson);
    assert_eq!(response_format(None), ResponseFormat::GeoJson);
    let step = engine_step(true, Received::Query);
    assert!(step.recustomize && step.answer && !step.stop);
    let step = engine_step(false, Received::Closed);
    assert!(!step.recustomize && !step.answer && step.stop);
    let step = engine_step(false, Received::Timeout);
    assert!(!step.answer && !step.stop);
}

#[test]
fn run_totals_fall_back_to_snaps() {
    let counts = vec![
        MeasurementCounts { queries: Some(10), found: Some(7), snaps: None },
        MeasurementCounts { queries: None, found: Some(2), snaps: Some(4) },
        MeasurementCounts { queries: None, found: None, snaps: None },
        MeasurementCounts { queries: Some(u64::MAX), found: None, snaps: Some(99) },
    ];
    let (queries, found, attempts) = count_totals(&counts);
    assert_eq!(queries, 10 + u64::MAX as u128);
    assert_eq!(found, 9);
    assert_eq!(attempts, 14 + u64::MAX as u128);
    assert_eq!(count_totals(&Vec::new()), (0, 0, 0));
}

#[test]
fn random_queries_stay_in_range() {
    let pairs = generate_random_queries(7, 200, 42);
    assert_eq!(pairs.len(), 200);
    assert!(pairs.iter().all(|&(s, t)| s < 7 && t < 7));
    assert_eq!(generate_random_queries(7, 200, 42), pairs);
    assert!(generate_random_queries(0, 0, 1).is_empty());
    assert!(generate_random_queries(1, 5, 3).iter().all(|&p| p == (0, 0)));
}

#[test]
fn outgoing_arcs_of_a_node() {
    let first_out = vec![0, 2, 2, 3];
    let head = vec![1, 2, 0];
    assert_eq!(edges_incident_to(&first_out, &head, 0), vec![(0, 0, 1), (1, 0, 2)]);
    assert!(edges_incident_to(&first_out, &head, 1).is_empty());
    assert_eq!(edges_incident_to(&first_out, &head, 2), vec![(2, 2, 0)]);
}
