use hanoi_core::cch::{CCHT, CCH};
use hanoi_core::customized::{Customized, CustomizedBasic};
use hanoi_core::graph::INFINITY;
use hanoi_core::multi_route::{reconstruct_path, request_count, unpackable, MultiRouteServer};
use hanoi_core::node_order::NodeOrder;
use hanoi_core::tree_walk::{chain_of, check_walkable, elimination_tree_walk, is_upward_weighted, tree_is_upward};

// The four-cycle 0-1-2-3-0 contracted in id order: upward arcs 0->1, 0->3,
// 1->2, 1->3, 2->3 and the elimination tree 0 -> 1 -> 2 -> 3.
fn cycle_cch() -> CCH {
    let first_out = vec![0, 2, 4, 6, 8];
    let head = vec![1, 3, 0, 2, 1, 3, 2, 0];
    CCH::contract(&first_out, &head, NodeOrder::from_node_order(vec![0, 1, 2, 3])).unwrap()
}

fn plain_unpacking() -> Vec<(Option<u32>, Option<u32>)> {
    vec![(None, None); 5]
}

#[test]
fn elimination_tree_chains() {
    let cch = cycle_cch();
    assert_eq!(chain_of(cch.elimination_tree(), 0), vec![0, 1, 2, 3]);
    assert_eq!(chain_of(cch.elimination_tree(), 2), vec![2, 3]);
    assert_eq!(chain_of(cch.elimination_tree(), 3), vec![3]);
    assert!(tree_is_upward(cch.elimination_tree(), 4));
    assert!(!tree_is_upward(&vec![Some(1), Some(0)], 2));
    assert!(!tree_is_upward(&vec![None], 2));
}

#[test]
fn walk_relaxes_upward_arcs() {
    let cch = cycle_cch();
    let c = CustomizedBasic::new(&cch, vec![5, 7, 1, 10, 2], vec![3, 4, 1, 10, 2], plain_unpacking(), plain_unpacking());
    assert!(is_upward_weighted(&c.forward_graph(), 4));
    assert!(!is_upward_weighted(&c.forward_graph(), 5));
    let (chain, dist, parents) = elimination_tree_walk(&c.forward_graph(), cch.elimination_tree(), 0);
    assert_eq!(chain, vec![0, 1, 2, 3]);
    assert_eq!(dist, vec![0, 5, 6, 7]);
    assert_eq!(parents, vec![(4, 5), (0, 0), (1, 2), (0, 1)]);
    let (_, dist, parents) = elimination_tree_walk(&c.backward_graph(), cch.elimination_tree(), 2);
    assert_eq!(dist, vec![INFINITY, INFINITY, 0, 2]);
    assert_eq!(parents, vec![(4, 5), (4, 5), (4, 5), (2, 4)]);
    assert!(check_walkable(&c));
}

#[test]
fn meeting_nodes_sorted_by_distance() {
    let cch = cycle_cch();
    let c = CustomizedBasic::new(&cch, vec![5, 7, 1, 10, 2], vec![3, 4, 1, 10, 2], plain_unpacking(), plain_unpacking());
    let mut server = MultiRouteServer::new(&c);
    assert_eq!(server.collect_meeting_nodes(0, 2), vec![(2, 6), (3, 9)]);
    assert_eq!(server.collect_meeting_nodes(0, 3), vec![(3, 7)]);
    assert_eq!(server.collect_meeting_nodes(1, 0), vec![(1, 3), (2, 5), (3, 7)]);
    assert_eq!(server.cch_point_distance(0, 2), 6);
    assert_eq!(server.cch_point_distance(1, 0), 3);
    assert_eq!(server.cch_point_distance(2, 2), 0);
}

#[test]
fn local_optimality_on_the_cycle() {
    let cch = cycle_cch();
    let c = CustomizedBasic::new(&cch, vec![5, 7, 1, 10, 2], vec![3, 4, 1, 10, 2], plain_unpacking(), plain_unpacking());
    let mut server = MultiRouteServer::new(&c);
    let path = vec![0, 1, 2, 3];
    // Costs 5 per arc: the subpath 0..2 costs 10, more than 11/10 of 6.
    assert!(!server.check_local_optimality(&path, 1, 8, &|_: u32, _: u32| 5u32));
    // Costs 2 per arc: 4 is within 11/10 of 6.
    assert!(server.check_local_optimality(&path, 1, 8, &|_: u32, _: u32| 2u32));
    // A wide interval covers the whole path.
    assert!(server.check_local_optimality(&path, 1, 400, &|_: u32, _: u32| 5u32));
    // Short paths and paths that miss the via node pass.
    assert!(server.check_local_optimality(&vec![0, 1], 1, 8, &|_: u32, _: u32| 5u32));
    assert!(server.check_local_optimality(&vec![0, 2, 3], 1, 8, &|_: u32, _: u32| 5u32));
}

#[test]
fn multi_query_picks_alternatives() {
    let cch = cycle_cch();
    let c = CustomizedBasic::new(&cch, vec![5, 7, 1, 10, 2], vec![3, 4, 1, 10, 2], plain_unpacking(), plain_unpacking());
    let always = |_: &Vec<u32>, _: &Vec<u32>| true;
    let never = |_: &Vec<u32>, _: &Vec<u32>| false;
    let unit = |_: u32, _: u32| 1u32;
    let mut server = MultiRouteServer::new(&c);
    assert_eq!(server.multi_query(0, 2, 3, &always, &unit), vec![(6, vec![0, 1, 2]), (9, vec![0, 3, 2])]);
    assert_eq!(server.reconstruct_path(0, 2, 3), vec![0, 3, 2]);
    assert_eq!(server.multi_query(0, 2, 1, &always, &unit), vec![(6, vec![0, 1, 2])]);
    assert_eq!(server.multi_query(0, 2, 3, &never, &unit), vec![(6, vec![0, 1, 2])]);
    assert!(server.multi_query(0, 2, 0, &always, &unit).is_empty());
    // From a node to itself every other candidate turns back on itself.
    assert_eq!(server.multi_query(1, 1, 3, &always, &unit), vec![(0, vec![1])]);
}

#[test]
fn over_request_for_geographic_filtering() {
    assert_eq!(request_count(1), 11);
    assert_eq!(request_count(5), 15);
    assert_eq!(request_count(10), 30);
    assert_eq!(request_count(0), 10);
    assert_eq!(request_count(usize::MAX - 10), usize::MAX);
}

fn shortest_upward(first_out: &[u32], head: &[u32], weight: &[u32], s: usize) -> Vec<u64> {
    // Arcs only go up, so settling nodes by id is a topological order.
    let n = first_out.len() - 1;
    let mut best = vec![u64::MAX; n];
    best[s] = 0;
    for u in s..n {
        if best[u] == u64::MAX {
            continue;
        }
        for e in first_out[u] as usize..first_out[u + 1] as usize {
            let v = head[e] as usize;
            best[v] = best[v].min(best[u] + weight[e] as u64);
        }
    }
    best
}

#[test]
fn walk_distances_are_shortest_upward() {
    let cch = cycle_cch();
    for (up, down) in [(vec![5, 7, 1, 10, 2], vec![3, 4, 1, 10, 2]), (vec![1, 1, 1, 1, 1], vec![9, 2, 7, 1, 3])] {
        let c = CustomizedBasic::new(&cch, up, down, plain_unpacking(), plain_unpacking());
        for graph in [c.forward_graph(), c.backward_graph()] {
            for s in 0..4u32 {
                let (_, dist, _) = elimination_tree_walk(&graph, cch.elimination_tree(), s);
                let best = shortest_upward(graph.first_out, graph.head, graph.weight, s as usize);
                for v in 0..4 {
                    let expected = if best[v] == u64::MAX { INFINITY as u64 } else { best[v] };
                    assert_eq!(dist[v] as u64, expected);
                }
            }
        }
    }
}

#[test]
fn point_distance_is_best_up_down_path() {
    let cch = cycle_cch();
    let c = CustomizedBasic::new(&cch, vec![5, 7, 1, 10, 2], vec![3, 4, 1, 10, 2], plain_unpacking(), plain_unpacking());
    let mut server = MultiRouteServer::new(&c);
    let fw = c.forward_graph();
    let bw = c.backward_graph();
    for s in 0..4u32 {
        for t in 0..4u32 {
            let up = shortest_upward(fw.first_out, fw.head, fw.weight, s as usize);
            let down = shortest_upward(bw.first_out, bw.head, bw.weight, t as usize);
            let best = (0..4)
                .filter(|&m| up[m] != u64::MAX && down[m] != u64::MAX)
                .map(|m| up[m] + down[m])
                .min()
                .unwrap_or(INFINITY as u64);
            let expected = if s == t { 0 } else { best.min(INFINITY as u64) };
            assert_eq!(server.cch_point_distance(s, t) as u64, expected);
        }
    }
}

#[test]
fn paths_with_bad_unpacking_are_dropped() {
    let cch = cycle_cch();
    // Arc 3 (1 -> 3) claims to be a shortcut over backward arc 4, whose tail
    // (2) does not lie below both ends: it cannot be unpacked.
    let mut unpacking = plain_unpacking();
    unpacking[3] = (Some(4), Some(1));
    let c = CustomizedBasic::new(&cch, vec![5, 7, 1, 10, 2], vec![3, 4, 1, 10, 2], unpacking.clone(), unpacking);
    assert!(!unpackable(&c, 1, 3, 3));
    assert!(unpackable(&c, 0, 1, 0));
    // A downward arc id past the end cannot be unpacked either.
    assert!(!unpackable(&c, 3, 1, 9));
    let fw_parents = vec![(4, 5), (4, 5), (4, 5), (1, 3)];
    let bw_parents = vec![(4, 5); 4];
    assert!(reconstruct_path(&c, &fw_parents, &bw_parents, 1, 3, 3).is_empty());
    let good = CustomizedBasic::new(&cch, vec![5, 7, 1, 10, 2], vec![3, 4, 1, 10, 2], plain_unpacking(), plain_unpacking());
    assert_eq!(reconstruct_path(&good, &fw_parents, &bw_parents, 1, 3, 3), vec![1, 3]);
}

// Lightest upward path weights from `s` in a CSR graph, by exhaustive search.
fn upward_minima(first_out: &[u32], head: &[u32], weight: &[u32], s: usize) -> Vec<Option<u64>> {
    let n = first_out.len() - 1;
    let mut best: Vec<Option<u64>> = vec![None; n];
    let mut stack = vec![(s, 0u64)];
    while let Some((v, d)) = stack.pop() {
        if best[v].map_or(true, |b| d < b) {
            best[v] = Some(d);
            for e in first_out[v] as usize..first_out[v + 1] as usize {
                stack.push((head[e] as usize, d + weight[e] as u64));
            }
        }
    }
    best
}

#[test]
fn first_meeting_is_the_shortest_up_down_distance() {
    let cch = cycle_cch();
    let up = vec![5, 7, 1, 10, 2];
    let down = vec![3, 4, 1, 10, 2];
    let c = CustomizedBasic::new(&cch, up.clone(), down.clone(), plain_unpacking(), plain_unpacking());
    let mut server = MultiRouteServer::new(&c);
    for s in 0..4u32 {
        for t in 0..4u32 {
            let fw = upward_minima(cch.first_out(), cch.head(), &up, s as usize);
            let bw = upward_minima(cch.first_out(), cch.head(), &down, t as usize);
            let shortest = (0..4)
                .filter_map(|v| match (fw[v], bw[v]) {
                    (Some(a), Some(b)) if a < INFINITY as u64 && b < INFINITY as u64 => Some(a + b),
                    _ => None,
                })
                .min();
            let cands = server.collect_meeting_nodes(s, t);
            assert_eq!(cands.first().map(|c| c.1 as u64), shortest);
        }
    }
}

#[test]
fn into_weights_gives_back_the_graph_weights() {
    let cch = cycle_cch();
    let c = CustomizedBasic::new(&cch, vec![5, 7, 1, 10, 2], vec![3, 4, 1, 10, 2], plain_unpacking(), plain_unpacking());
    let up0 = c.forward_graph().weight.clone();
    let down0 = c.backward_graph().weight.clone();
    assert_eq!(c.into_weights(), (up0, down0));
}
