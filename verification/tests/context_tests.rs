use hanoi_core::context::{usable_cached_cch, CchContext, ContextError, LineGraphCchContext};
use hanoi_core::cch_cache::Direction;
use hanoi_core::line_graph::LineGraphError;

fn square() -> (Vec<u32>, Vec<u32>) {
    (vec![0, 2, 4, 6, 8], vec![1, 3, 0, 2, 1, 3, 2, 0])
}

#[test]
fn cch_context_builds_and_checks() {
    let (first_out, head) = square();
    let ctx = CchContext::load_and_build(first_out.clone(), head.clone(), vec![1; 8], vec![0, 1, 2, 3]).unwrap();
    assert_eq!(ctx.cch.head(), &vec![1, 3, 2, 3, 3]);
    assert_eq!(
        CchContext::load_and_build(first_out.clone(), head.clone(), vec![1; 8], vec![0, 1, 1, 3]).err(),
        Some(ContextError::OrderNotPermutation)
    );
    assert_eq!(
        CchContext::load_and_build(first_out.clone(), head.clone(), vec![1; 8], vec![0, 1, 2]).err(),
        Some(ContextError::OrderLength { len: 3, num_nodes: 4 })
    );
    assert_eq!(
        CchContext::load_and_build(vec![1, 2], vec![0], vec![1], vec![0]).err(),
        Some(ContextError::GraphNotCsr)
    );
    assert_eq!(
        CchContext::load_and_build(vec![0, 1], vec![4], vec![1], vec![0]).err(),
        Some(ContextError::HeadOutOfRange { value: 4 })
    );
}

#[test]
fn cached_cch_needs_consistent_maps() {
    let (first_out, head) = square();
    let ctx = CchContext::load_and_build(first_out, head, vec![1; 8], vec![0, 1, 2, 3]).unwrap();
    let d = ctx.cch.to_directed_cch(&vec![1; 5], &vec![1; 5]);
    assert!(usable_cached_cch(Some(d), 8).is_some());
    let d = ctx.cch.to_directed_cch(&vec![1; 5], &vec![1; 5]);
    assert!(usable_cached_cch(Some(d), 5).is_none());
    assert!(usable_cached_cch(None, 8).is_none());
}

#[test]
fn line_graph_context_assembly() {
    let lg_ctx = CchContext::load_and_build(vec![0, 1, 2, 3, 4], vec![1, 0, 3, 1], vec![5; 4], vec![0, 1, 2, 3]).unwrap();
    let m = lg_ctx.cch.num_arcs();
    let directed = || lg_ctx.cch.to_directed_cch(&vec![1; m], &vec![1; m]);
    // Original graph: arcs 0: 0->1, 1: 1->0, 2: 1->2; line graph of 4 nodes (node 3 clones arc 2).
    let lg = LineGraphCchContext::load_and_build(
        vec![0, 1, 2, 3, 4],
        vec![1, 0, 3, 1],
        vec![5, 5, 5, 5],
        vec![0, 1, 3, 3],
        vec![1, 0, 2],
        vec![4, 5, 6],
        vec![2],
        None,
        directed(),
    )
    .unwrap();
    assert_eq!(lg.is_arc_roundabout, vec![0, 0, 0, 0]);
    assert_eq!(lg.mapping.lg_head_node(3), 2);
    let err = LineGraphCchContext::load_and_build(
        vec![0, 1, 2, 3, 4],
        vec![1, 0, 3, 1],
        vec![5, 5, 5, 5],
        vec![0, 1, 3, 3],
        vec![1, 0, 2],
        vec![4, 5, 6],
        vec![2],
        Some(vec![0, 1]),
        directed(),
    );
    assert_eq!(
        err.err(),
        Some(ContextError::LineGraph(LineGraphError::RoundaboutLengthMismatch { len: 2, num_lg_nodes: 4 }))
    );
    let err = LineGraphCchContext::load_and_build(
        vec![0, 1, 2, 3, 4],
        vec![1, 0, 3, 1],
        vec![5, 5, 5, 5],
        vec![0, 1, 3, 3],
        vec![1, 0, 2],
        vec![4, 5, 6],
        vec![7],
        None,
        directed(),
    );
    assert_eq!(
        err.err(),
        Some(ContextError::LineGraph(LineGraphError::SplitMapOutOfRange { original: 7, num_original_edges: 3 }))
    );
}

#[test]
fn line_graph_context_refuses_foreign_cch() {
    // A directed CCH of the square graph maps its arcs to square arcs up to 7,
    // which a line graph of 4 arcs does not have.
    let (first_out, head) = square();
    let ctx = CchContext::load_and_build(first_out, head, vec![1; 8], vec![0, 1, 2, 3]).unwrap();
    let foreign = ctx.cch.to_directed_cch(&vec![1; 5], &vec![1; 5]);
    let err = LineGraphCchContext::load_and_build(
        vec![0, 1, 2, 3, 4],
        vec![1, 0, 3, 1],
        vec![5, 5, 5, 5],
        vec![0, 1, 3, 3],
        vec![1, 0, 2],
        vec![4, 5, 6],
        vec![2],
        None,
        foreign,
    );
    assert_eq!(
        err.err(),
        Some(ContextError::LineGraph(LineGraphError::EdgeMapping {
            dir: Direction::Forward,
            edge_idx: 4,
            arc: 5,
            num_metric_edges: 4
        }))
    );
}

#[test]
fn line_graph_context_takes_the_original_graph_as_stored() {
    let lg_ctx = CchContext::load_and_build(vec![0, 1, 2, 3, 4], vec![1, 0, 3, 1], vec![5; 4], vec![0, 1, 2, 3]).unwrap();
    let m = lg_ctx.cch.num_arcs();
    let directed = || lg_ctx.cch.to_directed_cch(&vec![1; m], &vec![1; m]);
    // Offsets start at 1 (tails are counted from there) and arc 0 heads to
    // node 9, which the original graph does not have.
    let lg = LineGraphCchContext::load_and_build(
        vec![0, 1, 2, 3, 4],
        vec![1, 0, 3, 1],
        vec![5, 5, 5, 5],
        vec![1, 2, 3, 3],
        vec![9, 0, 2],
        vec![4, 5, 6],
        vec![2],
        None,
        directed(),
    )
    .unwrap();
    assert_eq!(lg.mapping.lg_head_node(0), 9);
    assert_eq!(lg.mapping.lg_tail_node(0), 0);
    assert_eq!(lg.mapping.lg_tail_node(1), 1);
    let err = LineGraphCchContext::load_and_build(
        vec![0, 1, 2, 3, 4],
        vec![1, 0, 3, 1],
        vec![5, 5, 5, 5],
        vec![0, 1, 2],
        vec![1, 0, 2],
        vec![4, 5, 6],
        vec![2],
        None,
        directed(),
    );
    assert_eq!(err.err(), Some(ContextError::GraphNotCsr));
}
