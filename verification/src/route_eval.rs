//! Replaying imported routes against the active weights: resolving the arcs
//! a route names, summing their travel times (saturating at `u32::MAX`), and
//! the pseudo-normal travel time of an original arc on a line-graph server
//! (the cheapest turn into it).

use vstd::prelude::*;
use crate::cch_cache::{find_not_below, first_not_below};
use crate::cch::lemma_arc_owner_exists;
use crate::graph::{
    INFINITY, copy_ids, csr_wf, group_by_key, groups_by_key, count_total, lemma_groups_by_key_facts, lemma_sorted_unique,
    offsets_monotone, strictly_sorted,
};

verus! {

/// How many routes one evaluation request may carry.
pub const MAX_ROUTE_EVALUATIONS: usize = 10;

/// A problem met while evaluating an imported route.
#[derive(Clone, Copy, Debug, PartialEq, Eq, Structural)]
pub enum RouteIssue {
    /// A listed arc id is not an arc of the loaded graph.
    ArcOutOfGraph { arc: u32 },
    /// A path node is not a node of the loaded graph.
    PathNodeOutOfGraph { node: u32 },
    /// Two consecutive path nodes are not joined by an arc.
    InvalidTransition { from: u32, to: u32 },
    /// A listed arc has no entry in the active weights.
    ArcOutsideWeights { arc: u32 },
    /// A line-graph node id is not a node of the loaded line graph.
    LineGraphNodeOutOfDataset { node: u32 },
    /// Two consecutive line-graph nodes are not joined by a turn.
    InvalidLineGraphTransition { from: u32, to: u32 },
    /// The active weights have no entry for a turn of the replayed path.
    MissingReplayTransition { edge: u32 },
    /// The active weights have no entry for a turn into a replayed arc.
    MissingPseudoNormalTransition { edge: u32 },
    /// A listed arc id is not an arc of the original graph.
    ArcOutsideOriginal { arc: u32 },
    /// No travel time could be derived on a normal graph server.
    NormalTravelTimeUnavailable,
    /// No travel time could be derived on a line-graph server.
    LineGraphTravelTimeUnavailable,
}

/// Where a route's distance comes from.
#[derive(Clone, Copy, Debug, PartialEq, Eq, Structural)]
pub enum DistanceMode {
    RouteArcIds,
    PathNodes,
    WeightPathIds,
    Geometry,
    Unavailable,
}

/// How a route's travel time was derived.
#[derive(Clone, Copy, Debug, PartialEq, Eq, Structural)]
pub enum TravelTimeMode {
    NormalArcSum,
    ExactWeightPath,
    LineGraphPseudoNormal,
    Unavailable,
}

/// `a + b`, capped at `u32::MAX`.
pub open spec fn sat_add(a: u32, b: u32) -> u32 {
    if a + b > u32::MAX {
        u32::MAX
    } else {
        (a + b) as u32
    }
}

/// Adds up the first `k` partial results with saturation, stopping at the
/// first error.
pub open spec fn sat_fold(rs: Seq<Result<u32, RouteIssue>>, k: int) -> Result<u32, RouteIssue>
    decreases k,
{
    if k <= 0 {
        Ok(0)
    } else {
        match sat_fold(rs, k - 1) {
            Err(e) => Err(e),
            Ok(t) => match rs[k - 1] {
                Err(e) => Err(e),
                Ok(w) => Ok(sat_add(t, w)),
            },
        }
    }
}

/// Once the fold has failed, it keeps that error.
pub proof fn lemma_sat_fold_err_stays(rs: Seq<Result<u32, RouteIssue>>, a: int, b: int)
    requires
        0 <= a <= b,
        sat_fold(rs, a) is Err,
    ensures
        sat_fold(rs, b) == sat_fold(rs, a),
    decreases b - a,
{
    if b > a {
        lemma_sat_fold_err_stays(rs, a, b - 1);
    }
}

/// The weight of `arc`, or the error for a missing entry.
pub open spec fn arc_weight(weights: Seq<u32>, arc: u32) -> Result<u32, RouteIssue> {
    if (arc as int) < weights.len() {
        Ok(weights[arc as int])
    } else {
        Err(RouteIssue::ArcOutsideWeights { arc })
    }
}

/// The first position in `lo..hi` whose head is `target`.
pub open spec fn first_head_match(head: Seq<u32>, lo: int, hi: int, target: u32) -> Option<int>
    decreases hi - lo,
{
    if lo >= hi {
        None
    } else if head[lo] == target {
        Some(lo)
    } else {
        first_head_match(head, lo + 1, hi, target)
    }
}

/// The arc from `a` to `b` that a lookup finds: `None` when `a` is not a
/// node, `Some(None)` when no arc leads to `b`, `Some(Some(e))` for the
/// first such arc `e`.
pub open spec fn arc_lookup(first_out: Seq<u32>, head: Seq<u32>, a: u32, b: u32) -> Option<Option<int>> {
    if (a as int) + 1 >= first_out.len() {
        None
    } else {
        Some(first_head_match(head, first_out[a as int] as int, first_out[a as int + 1] as int, b))
    }
}

/// One step of path-node replay.
pub open spec fn path_step(first_out: Seq<u32>, head: Seq<u32>, a: u32, b: u32) -> Result<u32, RouteIssue> {
    match arc_lookup(first_out, head, a, b) {
        None => Err(RouteIssue::PathNodeOutOfGraph { node: a }),
        Some(None) => Err(RouteIssue::InvalidTransition { from: a, to: b }),
        Some(Some(e)) => Ok(e as u32),
    }
}

/// The arc ids of a node path: each consecutive pair resolved by
/// [`path_step`], the first failing pair's error otherwise.
pub open spec fn arcs_of_path(first_out: Seq<u32>, head: Seq<u32>, nodes: Seq<u32>, ids: Seq<u32>) -> bool {
    &&& ids.len() == if nodes.len() < 2 { 0 } else { nodes.len() - 1 }
    &&& forall|i: int| 0 <= i < ids.len() ==> path_step(first_out, head, nodes[i], nodes[i + 1]) == Ok::<u32, RouteIssue>(#[trigger] ids[i])
}

/// The first failing pair of a node path is `k` with error `e`.
pub open spec fn path_fails_at(first_out: Seq<u32>, head: Seq<u32>, nodes: Seq<u32>, k: int, e: RouteIssue) -> bool {
    &&& 0 <= k < nodes.len() - 1
    &&& forall|i: int| 0 <= i < k ==> #[trigger] path_step(first_out, head, nodes[i], nodes[i + 1]) is Ok
    &&& path_step(first_out, head, nodes[k], nodes[k + 1]) == Err::<u32, RouteIssue>(e)
}

/// Checks that every listed arc is an arc of a graph with `max_arc_count`
/// arcs; reports the first that is not.
pub fn validate_arc_ids(route_arc_ids: &Vec<u32>, max_arc_count: usize) -> (res: Result<Vec<u32>, RouteIssue>)
    ensures
        match first_not_below(route_arc_ids@, max_arc_count as int) {
            Some(arc) => res == Err::<Vec<u32>, RouteIssue>(RouteIssue::ArcOutOfGraph { arc }),
            None => res is Ok && res->Ok_0@ == route_arc_ids@,
        },
{
    match find_not_below(route_arc_ids, max_arc_count) {
        Some(arc) => Err(RouteIssue::ArcOutOfGraph { arc }),
        None => Ok(copy_ids(route_arc_ids)),
    }
}

/// The first arc in `start..end` whose head is `target`.
fn find_head(head: &Vec<u32>, start: u32, end: u32, target: u32) -> (res: Option<u32>)
    requires
        end <= head@.len(),
    ensures
        match first_head_match(head@, start as int, end as int, target) {
            Some(e) => res == Some(e as u32),
            None => res is None,
        },
{
    let mut e = start;
    while e < end
        invariant
            start <= e <= end || (start > end && e == start),
            end <= head@.len(),
            first_head_match(head@, start as int, end as int, target) == first_head_match(head@, e as int, end as int, target),
        decreases end - e,
    {
        if head[e as usize] == target {
            return Some(e);
        }
        e = e + 1;
    }
    None
}

proof fn lemma_first_head_match_range(head: Seq<u32>, lo: int, hi: int, target: u32)
    ensures
        match first_head_match(head, lo, hi, target) {
            Some(e) => lo <= e < hi && head[e] == target,
            None => true,
        },
    decreases hi - lo,
{
    if lo < hi && head[lo] != target {
        lemma_first_head_match_range(head, lo + 1, hi, target);
    }
}

/// Offsets that never decrease and end at most at `m`.
pub open spec fn offsets_within(first_out: Seq<u32>, m: int) -> bool {
    &&& offsets_monotone(first_out)
    &&& first_out.len() >= 1 ==> first_out[first_out.len() - 1] <= m
}

/// Looks up the arc from `a` to `b`.
fn lookup_arc(first_out: &Vec<u32>, head: &Vec<u32>, a: u32, b: u32) -> (res: Option<Option<u32>>)
    requires
        offsets_within(first_out@, head@.len() as int),
    ensures
        match arc_lookup(first_out@, head@, a, b) {
            None => res is None,
            Some(None) => res == Some(None::<u32>),
            Some(Some(e)) => res == Some(Some(e as u32)) && 0 <= e < head@.len() && e <= u32::MAX,
        },
{
    if a as usize >= first_out.len() || a as usize + 1 >= first_out.len() {
        return None;
    }
    let start = first_out[a as usize];
    let end = first_out[a as usize + 1];
    proof {
        assert(first_out@[a as int + 1] <= first_out@[first_out@.len() - 1]);
        lemma_first_head_match_range(head@, start as int, end as int, b);
    }
    Some(find_head(head, start, end, b))
}

/// The arcs along a node path: the first arc from each node to the next.
pub fn reconstruct_arc_ids(first_out: &Vec<u32>, head: &Vec<u32>, path_nodes: &Vec<u32>) -> (res: Result<Vec<u32>, RouteIssue>)
    requires
        offsets_within(first_out@, head@.len() as int),
    ensures
        match res {
            Ok(ids) => arcs_of_path(first_out@, head@, path_nodes@, ids@),
            Err(e) => exists|k: int| path_fails_at(first_out@, head@, path_nodes@, k, e),
        },
{
    let mut ids: Vec<u32> = Vec::new();
    if path_nodes.len() < 2 {
        return Ok(ids);
    }
    let mut i: usize = 0;
    while i < path_nodes.len() - 1
        invariant
            path_nodes@.len() >= 2,
            offsets_within(first_out@, head@.len() as int),
            i + 1 <= path_nodes@.len(),
            ids@.len() == i,
            forall|j: int| 0 <= j < i ==> path_step(first_out@, head@, path_nodes@[j], path_nodes@[j + 1]) == Ok::<u32, RouteIssue>(#[trigger] ids@[j]),
        decreases path_nodes@.len() - i,
    {
        let a = path_nodes[i];
        let b = path_nodes[i + 1];
        proof {
            assert forall|j: int| 0 <= j < i implies #[trigger] path_step(first_out@, head@, path_nodes@[j], path_nodes@[j + 1]) is Ok by {
                assert(path_step(first_out@, head@, path_nodes@[j], path_nodes@[j + 1]) == Ok::<u32, RouteIssue>(ids@[j]));
            }
        }
        match lookup_arc(first_out, head, a, b) {
            None => {
                proof {
                    assert(path_fails_at(first_out@, head@, path_nodes@, i as int, RouteIssue::PathNodeOutOfGraph { node: a }));
                }
                return Err(RouteIssue::PathNodeOutOfGraph { node: a });
            },
            Some(None) => {
                proof {
                    assert(path_fails_at(first_out@, head@, path_nodes@, i as int, RouteIssue::InvalidTransition { from: a, to: b }));
                }
                return Err(RouteIssue::InvalidTransition { from: a, to: b });
            },
            Some(Some(e)) => {
                ids.push(e);
            },
        }
        i = i + 1;
    }
    Ok(ids)
}

/// The weights of the listed arcs, one lookup each.
pub open spec fn weight_lookups(route_arc_ids: Seq<u32>, weights: Seq<u32>) -> Seq<Result<u32, RouteIssue>> {
    Seq::new(route_arc_ids.len(), |i: int| arc_weight(weights, route_arc_ids[i]))
}

/// Sums the weights of the listed arcs, saturating at `u32::MAX`; reports
/// the first arc without a weight.
pub fn sum_weighted_arcs(route_arc_ids: &Vec<u32>, weights: &Vec<u32>) -> (res: Result<u32, RouteIssue>)
    ensures
        res == sat_fold(weight_lookups(route_arc_ids@, weights@), route_arc_ids@.len() as int),
{
    let ghost rs = weight_lookups(route_arc_ids@, weights@);
    let mut total: u32 = 0;
    let mut i: usize = 0;
    while i < route_arc_ids.len()
        invariant
            i <= route_arc_ids@.len(),
            rs == weight_lookups(route_arc_ids@, weights@),
            sat_fold(rs, i as int) == Ok::<u32, RouteIssue>(total),
        decreases route_arc_ids@.len() - i,
    {
        let arc = route_arc_ids[i];
        if arc as usize >= weights.len() {
            proof {
                lemma_sat_fold_err_stays(rs, i + 1, route_arc_ids@.len() as int);
            }
            return Err(RouteIssue::ArcOutsideWeights { arc });
        }
        total = total.saturating_add(weights[arc as usize]);
        i = i + 1;
    }
    Ok(total)
}

/// Groups the line-graph turns by the original arc they lead into: the
/// offsets per original arc and the turn ids, in increasing order within
/// each arc. Turns into ids at or above `original_edge_count` are skipped.
pub fn build_incoming_index(head: &Vec<u32>, original_edge_count: usize) -> (res: (Vec<u32>, Vec<u32>))
    requires
        head@.len() <= u32::MAX,
        original_edge_count < usize::MAX,
    ensures
        groups_by_key(head@, original_edge_count as int, res.0@, res.1@),
        (res.0@, res.1@) == incoming_index(head@, original_edge_count as int),
        res.1@.len() == count_total(head@, original_edge_count as int, head@.len() as int),
{
    let res = group_by_key(head, original_edge_count);
    proof {
        lemma_incoming_index(head@, original_edge_count as int, res.0@, res.1@);
    }
    res
}

/// The group of key `k` is strictly increasing.
proof fn lemma_group_sorted(keys: Seq<u32>, num_keys: int, o: Seq<u32>, ids: Seq<u32>, k: int)
    requires
        groups_by_key(keys, num_keys, o, ids),
        0 <= k < num_keys,
    ensures
        o[k] <= o[k + 1] <= ids.len(),
        strictly_sorted(ids.subrange(o[k] as int, o[k + 1] as int)),
{
    lemma_groups_by_key_facts(keys, num_keys, o, ids);
    assert(o[k] <= o[k + 1] <= o[num_keys]);
    let g = ids.subrange(o[k] as int, o[k + 1] as int);
    assert forall|a: int, b: int| 0 <= a < b < g.len() implies g[a] < g[b] by {
        assert(ids[o[k] + a] < ids[o[k] + b]);
    }
}

/// What the group of key `k` holds in one grouping it holds in another.
proof fn lemma_group_included(keys: Seq<u32>, num_keys: int, o1: Seq<u32>, i1: Seq<u32>, o2: Seq<u32>, i2: Seq<u32>, k: int, y: u32)
    requires
        groups_by_key(keys, num_keys, o1, i1),
        groups_by_key(keys, num_keys, o2, i2),
        0 <= k < num_keys,
        i1.subrange(o1[k] as int, o1[k + 1] as int).contains(y),
    ensures
        i2.subrange(o2[k] as int, o2[k + 1] as int).contains(y),
{
    lemma_group_sorted(keys, num_keys, o1, i1, k);
    lemma_group_sorted(keys, num_keys, o2, i2, k);
    lemma_groups_by_key_facts(keys, num_keys, o1, i1);
    lemma_groups_by_key_facts(keys, num_keys, o2, i2);
    let g1 = i1.subrange(o1[k] as int, o1[k + 1] as int);
    let g2 = i2.subrange(o2[k] as int, o2[k + 1] as int);
    let a = choose|a: int| 0 <= a < g1.len() && g1[a] == y;
    assert(i1[o1[k] + a] == y);
    assert((y as int) < keys.len() && keys[y as int] == k);
    let j2 = choose|j2: int| o2[keys[y as int] as int] <= j2 < o2[keys[y as int] as int + 1] && i2[j2] == y;
    assert(g2[j2 - o2[k]] == y);
}

/// The group of key `k` in two groupings of the same keys is the same list.
proof fn lemma_group_same(keys: Seq<u32>, num_keys: int, o1: Seq<u32>, i1: Seq<u32>, o2: Seq<u32>, i2: Seq<u32>, k: int)
    requires
        groups_by_key(keys, num_keys, o1, i1),
        groups_by_key(keys, num_keys, o2, i2),
        0 <= k < num_keys,
    ensures
        i1.subrange(o1[k] as int, o1[k + 1] as int) == i2.subrange(o2[k] as int, o2[k + 1] as int),
{
    lemma_group_sorted(keys, num_keys, o1, i1, k);
    lemma_group_sorted(keys, num_keys, o2, i2, k);
    let g1 = i1.subrange(o1[k] as int, o1[k + 1] as int);
    let g2 = i2.subrange(o2[k] as int, o2[k + 1] as int);
    assert forall|y: u32| g1.contains(y) <==> g2.contains(y) by {
        if g1.contains(y) {
            lemma_group_included(keys, num_keys, o1, i1, o2, i2, k, y);
        }
        if g2.contains(y) {
            lemma_group_included(keys, num_keys, o2, i2, o1, i1, k, y);
        }
    }
    lemma_sorted_unique(g1, g2);
}

proof fn lemma_group_offsets_same(keys: Seq<u32>, num_keys: int, o1: Seq<u32>, i1: Seq<u32>, o2: Seq<u32>, i2: Seq<u32>, k: int)
    requires
        groups_by_key(keys, num_keys, o1, i1),
        groups_by_key(keys, num_keys, o2, i2),
        0 <= k <= num_keys,
    ensures
        o1[k] == o2[k],
    decreases k,
{
    lemma_groups_by_key_facts(keys, num_keys, o1, i1);
    lemma_groups_by_key_facts(keys, num_keys, o2, i2);
    if k > 0 {
        lemma_group_offsets_same(keys, num_keys, o1, i1, o2, i2, k - 1);
        lemma_group_same(keys, num_keys, o1, i1, o2, i2, k - 1);
        assert(o1[k - 1] <= o1[k] <= o1[num_keys]);
        assert(o2[k - 1] <= o2[k] <= o2[num_keys]);
        assert(i1.subrange(o1[k - 1] as int, o1[k] as int).len() == o1[k] - o1[k - 1]);
        assert(i2.subrange(o2[k - 1] as int, o2[k] as int).len() == o2[k] - o2[k - 1]);
    }
}

/// Grouping positions by key has one outcome: two results that both group
/// `keys` below `num_keys` are equal. So the turn index that
/// `TrafficOverlay::from_line_graph` keeps is the one `build_incoming_index`
/// builds from the same heads and arc count.
pub proof fn lemma_groups_by_key_unique(keys: Seq<u32>, num_keys: int, o1: Seq<u32>, i1: Seq<u32>, o2: Seq<u32>, i2: Seq<u32>)
    requires
        0 <= num_keys,
        groups_by_key(keys, num_keys, o1, i1),
        groups_by_key(keys, num_keys, o2, i2),
    ensures
        o1 == o2,
        i1 == i2,
{
    assert(o1.len() == num_keys + 1 && o2.len() == num_keys + 1) by {
        lemma_groups_by_key_facts(keys, num_keys, o1, i1);
        lemma_groups_by_key_facts(keys, num_keys, o2, i2);
    }
    assert forall|k: int| 0 <= k < o1.len() implies o1[k] == o2[k] by {
        lemma_group_offsets_same(keys, num_keys, o1, i1, o2, i2, k);
    }
    assert(o1 =~= o2);
    assert forall|j: int| 0 <= j < i1.len() implies i1[j] == i2[j] by {
        lemma_group_member_same(keys, num_keys, o1, i1, i2, j);
    }
    assert(i1.len() == i2.len()) by {
        lemma_groups_by_key_facts(keys, num_keys, o1, i1);
        lemma_groups_by_key_facts(keys, num_keys, o1, i2);
    }
    assert(i1 =~= i2);
}

proof fn lemma_group_member_same(keys: Seq<u32>, num_keys: int, o: Seq<u32>, i1: Seq<u32>, i2: Seq<u32>, j: int)
    requires
        0 <= num_keys,
        groups_by_key(keys, num_keys, o, i1),
        groups_by_key(keys, num_keys, o, i2),
        0 <= j < i1.len(),
    ensures
        i1[j] == i2[j],
{
    lemma_groups_by_key_facts(keys, num_keys, o, i1);
    lemma_groups_by_key_facts(keys, num_keys, o, i2);
    let k = lemma_arc_owner_exists(o, j);
    lemma_group_same(keys, num_keys, o, i1, o, i2, k);
    assert(o[k + 1] <= o[num_keys]);
    assert(i1.subrange(o[k] as int, o[k + 1] as int)[j - o[k]] == i1[j]);
    assert(i2.subrange(o[k] as int, o[k + 1] as int)[j - o[k]] == i2[j]);
}

/// The turn index of a line graph: for every original arc below
/// `num_arcs`, the line-graph arcs whose head it is, grouped by that arc in
/// increasing order. Grouping has one outcome (`lemma_groups_by_key_unique`).
pub open spec fn incoming_index(head: Seq<u32>, num_arcs: int) -> (Seq<u32>, Seq<u32>) {
    choose|p: (Seq<u32>, Seq<u32>)| groups_by_key(head, num_arcs, p.0, p.1)
}

/// Any grouping of the heads is the turn index.
pub proof fn lemma_incoming_index(head: Seq<u32>, num_arcs: int, offsets: Seq<u32>, ids: Seq<u32>)
    requires
        0 <= num_arcs,
        groups_by_key(head, num_arcs, offsets, ids),
    ensures
        incoming_index(head, num_arcs) == (offsets, ids),
{
    let w = (offsets, ids);
    assert(groups_by_key(head, num_arcs, w.0, w.1));
    let p = incoming_index(head, num_arcs);
    lemma_groups_by_key_unique(head, num_arcs, offsets, ids, p.0, p.1);
}

/// Joins issue messages with single spaces; `None` when there are none.
pub open spec fn joined(parts: Seq<Seq<char>>) -> Seq<char>
    decreases parts.len(),
{
    if parts.len() == 0 {
        Seq::empty()
    } else if parts.len() == 1 {
        parts[0]
    } else {
        joined(parts.drop_last()) + seq![' '] + parts.last()
    }
}

/// The messages joined by single spaces, or `None` for no messages.
pub fn join_issues(issues: Vec<String>) -> (res: Option<String>)
    ensures
        issues@.len() == 0 ==> res is None,
        issues@.len() > 0 ==> res is Some && res->Some_0@ == joined(issues@.map_values(|s: String| s@)),
{
    if issues.len() == 0 {
        return None;
    }
    let ghost parts = issues@.map_values(|s: String| s@);
    let mut out = String::new();
    let mut i: usize = 0;
    while i < issues.len()
        invariant
            i <= issues@.len(),
            issues@.len() > 0,
            parts == issues@.map_values(|s: String| s@),
            i == 0 ==> out@ == Seq::<char>::empty(),
            i > 0 ==> out@ == joined(parts.take(i as int)),
        decreases issues@.len() - i,
    {
        if i > 0 {
            out.append(" ");
        }
        out.append(issues[i].as_str());
        proof {
            reveal_strlit(" ");
            assert(parts.take(i + 1).drop_last() =~= parts.take(i as int));
            assert(parts.take(i + 1).last() == issues@[i as int]@);
            if i == 0 {
                assert(parts.take(1).len() == 1);
                assert(out@ =~= parts.take(1)[0]);
            } else {
                assert(out@ =~= joined(parts.take(i as int)) + seq![' '] + parts.take(i + 1).last());
            }
        }
        i = i + 1;
    }
    proof {
        assert(parts.take(issues@.len() as int) =~= parts);
    }
    Some(out)
}

/// The cheapest of the listed turns under `weights`, starting from
/// `INFINITY`; the first turn without a weight is an error.
pub open spec fn min_incoming(edges: Seq<u32>, weights: Seq<u32>, k: int) -> Result<u32, RouteIssue>
    decreases k,
{
    if k <= 0 {
        Ok(INFINITY)
    } else {
        match min_incoming(edges, weights, k - 1) {
            Err(e) => Err(e),
            Ok(best) => if (edges[k - 1] as int) < weights.len() {
                Ok(if weights[edges[k - 1] as int] < best { weights[edges[k - 1] as int] } else { best })
            } else {
                Err(RouteIssue::MissingPseudoNormalTransition { edge: edges[k - 1] })
            },
        }
    }
}

/// Once the minimum has failed, it keeps that error.
proof fn lemma_min_incoming_err_stays(edges: Seq<u32>, weights: Seq<u32>, a: int, b: int)
    requires
        0 <= a <= b,
        min_incoming(edges, weights, a) is Err,
    ensures
        min_incoming(edges, weights, b) == min_incoming(edges, weights, a),
    decreases b - a,
{
    if b > a {
        lemma_min_incoming_err_stays(edges, weights, a, b - 1);
    }
}

/// The turn into line-graph node `b` from `a` and its weight.
pub open spec fn lg_transition(first_out: Seq<u32>, head: Seq<u32>, weights: Seq<u32>, a: u32, b: u32) -> Result<u32, RouteIssue> {
    match arc_lookup(first_out, head, a, b) {
        None => Err(RouteIssue::LineGraphNodeOutOfDataset { node: a }),
        Some(None) => Err(RouteIssue::InvalidLineGraphTransition { from: a, to: b }),
        Some(Some(e)) => if e < weights.len() {
            Ok(weights[e])
        } else {
            Err(RouteIssue::MissingReplayTransition { edge: e as u32 })
        },
    }
}

/// The partial results of replaying a line-graph path: the travel time of
/// its first node, then the weight of every turn.
pub open spec fn replay_steps(
    travel_time: Seq<u32>,
    first_out: Seq<u32>,
    head: Seq<u32>,
    weights: Seq<u32>,
    ids: Seq<u32>,
) -> Seq<Result<u32, RouteIssue>> {
    seq![
        if (ids[0] as int) < travel_time.len() {
            Ok(travel_time[ids[0] as int])
        } else {
            Err(RouteIssue::LineGraphNodeOutOfDataset { node: ids[0] })
        },
    ] + Seq::new((ids.len() - 1) as nat, |i: int| lg_transition(first_out, head, weights, ids[i], ids[i + 1]))
}

/// The route-replay data of a line-graph server, in integers: the original
/// graph, the line-graph node to original arc map, travel times, the line
/// graph, the baseline weight of every original arc and the turns into
/// every original arc.
pub struct LineGraphRouteEvaluator {
    original_first_out: Vec<u32>,
    original_head: Vec<u32>,
    original_arc_id_of_lg_node: Vec<u32>,
    original_travel_time_by_lg_node: Vec<u32>,
    line_graph_first_out: Vec<u32>,
    line_graph_head: Vec<u32>,
    baseline_original_arc_weights: Vec<u32>,
    incoming_offsets: Vec<u32>,
    incoming_edges: Vec<u32>,
}

impl LineGraphRouteEvaluator {
    pub closed spec fn spec_original_first_out(&self) -> Seq<u32> {
        self.original_first_out@
    }

    pub closed spec fn spec_original_head(&self) -> Seq<u32> {
        self.original_head@
    }

    pub closed spec fn spec_arc_of_lg_node(&self) -> Seq<u32> {
        self.original_arc_id_of_lg_node@
    }

    pub closed spec fn spec_travel_time(&self) -> Seq<u32> {
        self.original_travel_time_by_lg_node@
    }

    pub closed spec fn spec_lg_first_out(&self) -> Seq<u32> {
        self.line_graph_first_out@
    }

    pub closed spec fn spec_lg_head(&self) -> Seq<u32> {
        self.line_graph_head@
    }

    pub closed spec fn spec_baseline(&self) -> Seq<u32> {
        self.baseline_original_arc_weights@
    }

    pub closed spec fn spec_incoming_offsets(&self) -> Seq<u32> {
        self.incoming_offsets@
    }

    pub closed spec fn spec_incoming_edges(&self) -> Seq<u32> {
        self.incoming_edges@
    }

    pub open spec fn wf(&self) -> bool {
        &&& csr_wf(self.spec_original_first_out(), self.spec_original_head().len() as int)
        &&& csr_wf(self.spec_lg_first_out(), self.spec_lg_head().len() as int)
        &&& self.spec_incoming_offsets().len() == self.spec_baseline().len() + 1
        &&& csr_wf(self.spec_incoming_offsets(), self.spec_incoming_edges().len() as int)
    }

    /// The turns into original arc `arc`.
    pub open spec fn incoming(&self, arc: int) -> Seq<u32> {
        self.spec_incoming_edges().subrange(
            self.spec_incoming_offsets()[arc] as int,
            self.spec_incoming_offsets()[arc + 1] as int,
        )
    }

    /// The pseudo-normal weight of an original arc: its baseline weight when
    /// no turn leads into it, else the cheapest turn into it.
    pub open spec fn pseudo_normal_weight(&self, arc: u32, weights: Seq<u32>) -> Result<u32, RouteIssue> {
        if (arc as int) >= self.spec_baseline().len() {
            Err(RouteIssue::ArcOutsideOriginal { arc })
        } else if self.incoming(arc as int).len() == 0 {
            Ok(self.spec_baseline()[arc as int])
        } else {
            min_incoming(self.incoming(arc as int), weights, self.incoming(arc as int).len() as int)
        }
    }

    /// Sets up replay over an original graph (offsets, heads, travel times)
    /// and its line graph (offsets, heads, node to original arc map).
    pub fn new(
        original_first_out: Vec<u32>,
        original_head: Vec<u32>,
        original_travel_time: Vec<u32>,
        original_arc_id_of_lg_node: Vec<u32>,
        line_graph_first_out: Vec<u32>,
        line_graph_head: Vec<u32>,
    ) -> (ev: LineGraphRouteEvaluator)
        requires
            csr_wf(original_first_out@, original_head@.len() as int),
            csr_wf(line_graph_first_out@, line_graph_head@.len() as int),
            original_travel_time@.len() >= original_first_out@[original_first_out@.len() - 1],
            line_graph_head@.len() <= u32::MAX,
            (original_first_out@[original_first_out@.len() - 1] as int) < usize::MAX,
        ensures
            ev.wf(),
            ev.spec_original_first_out() == original_first_out@,
            ev.spec_original_head() == original_head@,
            ev.spec_arc_of_lg_node() == original_arc_id_of_lg_node@,
            ev.spec_travel_time() == original_travel_time@,
            ev.spec_lg_first_out() == line_graph_first_out@,
            ev.spec_lg_head() == line_graph_head@,
            ev.spec_baseline() == original_travel_time@.take(original_first_out@[original_first_out@.len() - 1] as int),
            groups_by_key(line_graph_head@, ev.spec_baseline().len() as int, ev.spec_incoming_offsets(), ev.spec_incoming_edges()),
    {
        let count = original_first_out[original_first_out.len() - 1] as usize;
        let mut baseline: Vec<u32> = Vec::new();
        let mut i: usize = 0;
        while i < count
            invariant
                i <= count,
                count <= original_travel_time@.len(),
                baseline@ == original_travel_time@.take(i as int),
            decreases count - i,
        {
            baseline.push(original_travel_time[i]);
            proof {
                assert(original_travel_time@.take(i + 1) =~= original_travel_time@.take(i as int).push(original_travel_time@[i as int]));
            }
            i = i + 1;
        }
        let (incoming_offsets, incoming_edges) = build_incoming_index(&line_graph_head, count);
        proof {
            crate::graph::lemma_groups_by_key_facts(line_graph_head@, count as int, incoming_offsets@, incoming_edges@);
        }
        LineGraphRouteEvaluator {
            original_first_out,
            original_head,
            original_arc_id_of_lg_node,
            original_travel_time_by_lg_node: original_travel_time,
            line_graph_first_out,
            line_graph_head,
            baseline_original_arc_weights: baseline,
            incoming_offsets,
            incoming_edges,
        }
    }

    /// The pseudo-normal weight of an original arc under the active turn
    /// weights.
    pub fn pseudo_normal_arc_weight(&self, arc_id: u32, current_weights: &Vec<u32>) -> (res: Result<u32, RouteIssue>)
        requires
            self.wf(),
        ensures
            res == self.pseudo_normal_weight(arc_id, current_weights@),
    {
        let arc = arc_id as usize;
        if arc >= self.baseline_original_arc_weights.len() {
            return Err(RouteIssue::ArcOutsideOriginal { arc: arc_id });
        }
        let fallback = self.baseline_original_arc_weights[arc];
        let start = self.incoming_offsets[arc];
        let end = self.incoming_offsets[arc + 1];
        proof {
            assert(self.incoming_offsets@[arc as int] <= self.incoming_offsets@[arc + 1]);
            assert(self.incoming_offsets@[arc + 1] <= self.incoming_offsets@[self.incoming_offsets@.len() - 1]);
        }
        if start >= end {
            return Ok(fallback);
        }
        let ghost inc = self.incoming(arc as int);
        proof {
            assert(inc.len() == end - start);
        }
        let mut best: u32 = INFINITY;
        let mut k = start;
        while k < end
            invariant
                start <= k <= end,
                end <= self.incoming_edges@.len(),
                inc == self.incoming_edges@.subrange(start as int, end as int),
                inc == self.incoming(arc_id as int),
                (arc_id as int) < self.spec_baseline().len(),
                inc.len() == end - start,
                min_incoming(inc, current_weights@, k - start) == Ok::<u32, RouteIssue>(best),
            decreases end - k,
        {
            let edge = self.incoming_edges[k as usize];
            proof {
                assert(inc[k - start] == edge);
            }
            if edge as usize >= current_weights.len() {
                proof {
                    assert(min_incoming(inc, current_weights@, k - start + 1) == Err::<u32, RouteIssue>(RouteIssue::MissingPseudoNormalTransition { edge }));
                    lemma_min_incoming_err_stays(inc, current_weights@, k - start + 1, inc.len() as int);
                }
                return Err(RouteIssue::MissingPseudoNormalTransition { edge });
            }
            let candidate = current_weights[edge as usize];
            if candidate < best {
                best = candidate;
            }
            k = k + 1;
        }
        proof {
            assert(inc.len() == end - start);
        }
        Ok(best)
    }

    /// Sums the pseudo-normal weights of the listed original arcs,
    /// saturating; reports the first failing arc.
    pub fn sum_pseudo_normal_arcs(&self, route_arc_ids: &Vec<u32>, current_weights: &Vec<u32>) -> (res: Result<u32, RouteIssue>)
        requires
            self.wf(),
        ensures
            res == sat_fold(
                Seq::new(route_arc_ids@.len(), |i: int| self.pseudo_normal_weight(route_arc_ids@[i], current_weights@)),
                route_arc_ids@.len() as int,
            ),
    {
        let ghost rs = Seq::new(route_arc_ids@.len(), |i: int| self.pseudo_normal_weight(route_arc_ids@[i], current_weights@));
        let mut total: u32 = 0;
        let mut i: usize = 0;
        while i < route_arc_ids.len()
            invariant
                self.wf(),
                i <= route_arc_ids@.len(),
                rs == Seq::new(route_arc_ids@.len(), |i: int| self.pseudo_normal_weight(route_arc_ids@[i], current_weights@)),
                sat_fold(rs, i as int) == Ok::<u32, RouteIssue>(total),
            decreases route_arc_ids@.len() - i,
        {
            match self.pseudo_normal_arc_weight(route_arc_ids[i], current_weights) {
                Ok(w) => {
                    total = total.saturating_add(w);
                },
                Err(e) => {
                    proof {
                        lemma_sat_fold_err_stays(rs, i + 1, route_arc_ids@.len() as int);
                    }
                    return Err(e);
                },
            }
            i = i + 1;
        }
        Ok(total)
    }

    /// Replays a line-graph node path: the travel time of its first node plus
    /// the weight of every turn along it, saturating; reports the first node
    /// or turn that cannot be replayed. An empty path costs nothing.
    pub fn sum_exact_line_graph_path(&self, weight_path_ids: &Vec<u32>, current_weights: &Vec<u32>) -> (res: Result<u32, RouteIssue>)
        requires
            self.wf(),
        ensures
            weight_path_ids@.len() == 0 ==> res == Ok::<u32, RouteIssue>(0),
            weight_path_ids@.len() > 0 ==> res == sat_fold(
                replay_steps(self.spec_travel_time(), self.spec_lg_first_out(), self.spec_lg_head(), current_weights@, weight_path_ids@),
                weight_path_ids@.len() as int,
            ),
    {
        if weight_path_ids.len() == 0 {
            return Ok(0);
        }
        let ghost rs = replay_steps(self.spec_travel_time(), self.spec_lg_first_out(), self.spec_lg_head(), current_weights@, weight_path_ids@);
        let first = weight_path_ids[0];
        proof {
            assert(sat_fold(rs, 0) == Ok::<u32, RouteIssue>(0));
            assert(rs[0] == if (first as int) < self.spec_travel_time().len() {
                Ok::<u32, RouteIssue>(self.spec_travel_time()[first as int])
            } else {
                Err::<u32, RouteIssue>(RouteIssue::LineGraphNodeOutOfDataset { node: first })
            });
        }
        if first as usize >= self.original_travel_time_by_lg_node.len() {
            proof {
                assert(sat_fold(rs, 1) == rs[0]);
                lemma_sat_fold_err_stays(rs, 1, weight_path_ids@.len() as int);
            }
            return Err(RouteIssue::LineGraphNodeOutOfDataset { node: first });
        }
        let mut total = self.original_travel_time_by_lg_node[first as usize];
        proof {
            assert(sat_fold(rs, 1) == Ok::<u32, RouteIssue>(total));
        }
        let mut i: usize = 0;
        while i < weight_path_ids.len() - 1
            invariant
                self.wf(),
                weight_path_ids@.len() > 0,
                i <= weight_path_ids@.len() - 1,
                rs == replay_steps(self.spec_travel_time(), self.spec_lg_first_out(), self.spec_lg_head(), current_weights@, weight_path_ids@),
                sat_fold(rs, i + 1) == Ok::<u32, RouteIssue>(total),
            decreases weight_path_ids@.len() - i,
        {
            let a = weight_path_ids[i];
            let b = weight_path_ids[i + 1];
            proof {
                assert(rs[i + 1] == lg_transition(self.spec_lg_first_out(), self.spec_lg_head(), current_weights@, a, b));
            }
            match lookup_arc(&self.line_graph_first_out, &self.line_graph_head, a, b) {
                None => {
                    proof {
                        lemma_sat_fold_err_stays(rs, i + 2, weight_path_ids@.len() as int);
                    }
                    return Err(RouteIssue::LineGraphNodeOutOfDataset { node: a });
                },
                Some(None) => {
                    proof {
                        lemma_sat_fold_err_stays(rs, i + 2, weight_path_ids@.len() as int);
                    }
                    return Err(RouteIssue::InvalidLineGraphTransition { from: a, to: b });
                },
                Some(Some(e)) => {
                    if e as usize >= current_weights.len() {
                        proof {
                            lemma_sat_fold_err_stays(rs, i + 2, weight_path_ids@.len() as int);
                        }
                        return Err(RouteIssue::MissingReplayTransition { edge: e });
                    }
                    total = total.saturating_add(current_weights[e as usize]);
                },
            }
            i = i + 1;
        }
        Ok(total)
    }

    /// The original arc behind every listed line-graph node; reports the
    /// first node outside the line graph.
    pub fn map_line_graph_nodes_to_original_arcs(&self, weight_path_ids: &Vec<u32>) -> (res: Result<Vec<u32>, RouteIssue>)
        ensures
            match first_not_below(weight_path_ids@, self.spec_arc_of_lg_node().len() as int) {
                Some(node) => res == Err::<Vec<u32>, RouteIssue>(RouteIssue::LineGraphNodeOutOfDataset { node }),
                None => res is Ok && res->Ok_0@ == Seq::new(
                    weight_path_ids@.len(),
                    |i: int| self.spec_arc_of_lg_node()[weight_path_ids@[i] as int],
                ),
            },
    {
        match find_not_below(weight_path_ids, self.original_arc_id_of_lg_node.len()) {
            Some(node) => {
                return Err(RouteIssue::LineGraphNodeOutOfDataset { node });
            },
            None => {},
        }
        proof {
            crate::cch_cache::lemma_first_not_below_none(weight_path_ids@, self.original_arc_id_of_lg_node@.len() as int);
        }
        let mut out: Vec<u32> = Vec::new();
        let mut i: usize = 0;
        while i < weight_path_ids.len()
            invariant
                i <= weight_path_ids@.len(),
                crate::directed_cch::all_below(weight_path_ids@, self.original_arc_id_of_lg_node@.len() as int),
                out@ == Seq::new(
                    weight_path_ids@.len(),
                    |i: int| self.spec_arc_of_lg_node()[weight_path_ids@[i] as int],
                ).take(i as int),
            decreases weight_path_ids@.len() - i,
        {
            out.push(self.original_arc_id_of_lg_node[weight_path_ids[i] as usize]);
            proof {
                let full = Seq::new(
                    weight_path_ids@.len(),
                    |i: int| self.spec_arc_of_lg_node()[weight_path_ids@[i] as int],
                );
                assert(full.take(i + 1) =~= full.take(i as int).push(full[i as int]));
            }
            i = i + 1;
        }
        proof {
            let full = Seq::new(
                weight_path_ids@.len(),
                |i: int| self.spec_arc_of_lg_node()[weight_path_ids@[i] as int],
            );
            assert(full.take(weight_path_ids@.len() as int) =~= full);
        }
        Ok(out)
    }
}

/// The replay-relevant content of an imported route: its declared graph
/// type, the arc ids, line-graph node ids and path nodes it lists, and how
/// many geometry points it has.
pub struct ParsedRoute {
    pub export_graph_type: Option<String>,
    pub route_arc_ids: Option<Vec<u32>>,
    pub weight_path_ids: Option<Vec<u32>>,
    pub path_nodes: Option<Vec<u32>>,
    pub geometry_len: usize,
}

/// The distance mode a route falls back to: its geometry, if it has any.
pub open spec fn geometry_mode(geometry_len: usize) -> DistanceMode {
    if geometry_len == 0 {
        DistanceMode::Unavailable
    } else {
        DistanceMode::Geometry
    }
}

/// The distance mode of a route without usable arcs.
pub fn geometry_distance_mode(geometry_len: usize) -> (mode: DistanceMode)
    ensures
        mode == geometry_mode(geometry_len),
{
    if geometry_len == 0 {
        DistanceMode::Unavailable
    } else {
        DistanceMode::Geometry
    }
}

/// The route declares that it was exported from a line-graph server.
pub open spec fn is_line_graph_export(route: &ParsedRoute) -> bool {
    route.export_graph_type matches Some(t) && t@ == "line_graph"@
}

fn line_graph_export(route: &ParsedRoute) -> (b: bool)
    ensures
        b == is_line_graph_export(route),
{
    match &route.export_graph_type {
        Some(t) => {
            let expected = String::from_str("line_graph");
            *t == expected
        },
        None => false,
    }
}

/// The arcs a route resolves to, the distance mode and the issue met.
pub struct ArcResolution {
    pub arc_ids: Option<Vec<u32>>,
    pub distance_mode: DistanceMode,
    pub issue: Option<RouteIssue>,
}

/// The view of optional arc ids.
pub open spec fn ids_view(ids: &Option<Vec<u32>>) -> Option<Seq<u32>> {
    match ids {
        Some(v) => Some(v@),
        None => None,
    }
}

/// Resolution from the listed arc ids or, failing that, the listed path
/// nodes of `route` on the graph `(first_out, head)` with `arc_count` arcs;
/// `fallback` is what a route listing neither resolves to.
pub open spec fn resolves_listed(
    route: &ParsedRoute,
    first_out: Seq<u32>,
    head: Seq<u32>,
    arc_count: int,
    fallback: (Option<Seq<u32>>, DistanceMode, Option<RouteIssue>),
    res: (Option<Seq<u32>>, DistanceMode, Option<RouteIssue>),
) -> bool {
    let geometry = geometry_mode(route.geometry_len);
    match route.route_arc_ids {
        Some(ids) => match first_not_below(ids@, arc_count) {
            Some(arc) => res == (None::<Seq<u32>>, geometry, Some(RouteIssue::ArcOutOfGraph { arc })),
            None => res == (Some(ids@), DistanceMode::RouteArcIds, None::<RouteIssue>),
        },
        None => match route.path_nodes {
            Some(nodes) => {
                ||| (res.1 == DistanceMode::PathNodes && res.2 is None && (res.0 matches Some(found) && arcs_of_path(
                    first_out,
                    head,
                    nodes@,
                    found,
                )))
                ||| (res.0 is None && res.1 == geometry && (res.2 matches Some(e) && exists|k: int|
                    path_fails_at(first_out, head, nodes@, k, e)))
            },
            None => res == fallback,
        },
    }
}

fn resolve_listed(route: &ParsedRoute, first_out: &Vec<u32>, head: &Vec<u32>, arc_count: usize) -> (res: Option<ArcResolution>)
    requires
        csr_wf(first_out@, head@.len() as int),
    ensures
        route.route_arc_ids is None && route.path_nodes is None <==> res is None,
        res matches Some(r) ==> resolves_listed(
            route,
            first_out@,
            head@,
            arc_count as int,
            (None, geometry_mode(route.geometry_len), None),
            (ids_view(&r.arc_ids), r.distance_mode, r.issue),
        ),
{
    let geometry = geometry_distance_mode(route.geometry_len);
    match &route.route_arc_ids {
        Some(ids) => {
            return match validate_arc_ids(ids, arc_count) {
                Ok(valid) => Some(ArcResolution { arc_ids: Some(valid), distance_mode: DistanceMode::RouteArcIds, issue: None }),
                Err(e) => Some(ArcResolution { arc_ids: None, distance_mode: geometry, issue: Some(e) }),
            };
        },
        None => {},
    }
    match &route.path_nodes {
        Some(nodes) => {
            return match reconstruct_arc_ids(first_out, head, nodes) {
                Ok(found) => Some(ArcResolution { arc_ids: Some(found), distance_mode: DistanceMode::PathNodes, issue: None }),
                Err(e) => Some(ArcResolution { arc_ids: None, distance_mode: geometry, issue: Some(e) }),
            };
        },
        None => {},
    }
    None
}

/// The issue as a sequence of zero or one issues.
pub open spec fn opt_seq(issue: Option<RouteIssue>) -> Seq<RouteIssue> {
    match issue {
        Some(e) => seq![e],
        None => Seq::empty(),
    }
}

/// The travel time of resolved arcs on a normal graph server and the issue
/// met while summing them.
pub open spec fn normal_travel(ids: Option<Seq<u32>>, weights: Seq<u32>) -> (Option<u32>, Option<RouteIssue>) {
    match ids {
        Some(ids) => match sat_fold(weight_lookups(ids, weights), ids.len() as int) {
            Ok(t) => (Some(t), None),
            Err(e) => (None, Some(e)),
        },
        None => (None, None),
    }
}

/// What evaluating one route gives: its arcs, travel time and how it was
/// derived, the distance mode and the issues met, in order.
pub struct RouteOutcome {
    pub route_arc_ids: Option<Vec<u32>>,
    pub travel_time_ms: Option<u32>,
    pub travel_time_mode: TravelTimeMode,
    pub distance_mode: DistanceMode,
    pub issues: Vec<RouteIssue>,
}

/// Route replay on a normal graph server.
pub struct NormalRouteEvaluator {
    first_out: Vec<u32>,
    head: Vec<u32>,
}

impl NormalRouteEvaluator {
    pub closed spec fn spec_first_out(&self) -> Seq<u32> {
        self.first_out@
    }

    pub closed spec fn spec_head(&self) -> Seq<u32> {
        self.head@
    }

    pub open spec fn wf(&self) -> bool {
        csr_wf(self.spec_first_out(), self.spec_head().len() as int)
    }

    pub fn new(first_out: Vec<u32>, head: Vec<u32>) -> (ev: NormalRouteEvaluator)
        requires
            csr_wf(first_out@, head@.len() as int),
        ensures
            ev.wf(),
            ev.spec_first_out() == first_out@,
            ev.spec_head() == head@,
    {
        NormalRouteEvaluator { first_out, head }
    }

    /// Resolves the arcs of a route: its listed arc ids if all are arcs,
    /// else its path nodes if all steps are arcs.
    pub fn resolve_arc_ids(&self, route: &ParsedRoute) -> (res: ArcResolution)
        requires
            self.wf(),
        ensures
            resolves_listed(
                route,
                self.spec_first_out(),
                self.spec_head(),
                self.spec_head().len() as int,
                (None, geometry_mode(route.geometry_len), None),
                (ids_view(&res.arc_ids), res.distance_mode, res.issue),
            ),
    {
        match resolve_listed(route, &self.first_out, &self.head, self.head.len()) {
            Some(r) => r,
            None => ArcResolution { arc_ids: None, distance_mode: geometry_distance_mode(route.geometry_len), issue: None },
        }
    }

    /// Evaluates one route against the active weights: resolves its arcs,
    /// sums their weights, and records every issue met.
    pub fn evaluate(&self, route: &ParsedRoute, current_weights: &Vec<u32>) -> (out: RouteOutcome)
        requires
            self.wf(),
        ensures
            exists|issue: Option<RouteIssue>| {
                &&& resolves_listed(
                    route,
                    self.spec_first_out(),
                    self.spec_head(),
                    self.spec_head().len() as int,
                    (None, geometry_mode(route.geometry_len), None),
                    (ids_view(&out.route_arc_ids), out.distance_mode, issue),
                )
                &&& out.travel_time_ms == normal_travel(ids_view(&out.route_arc_ids), current_weights@).0
                &&& out.issues@ == opt_seq(issue) + opt_seq(normal_travel(ids_view(&out.route_arc_ids), current_weights@).1)
                    + if out.travel_time_ms is None {
                    seq![RouteIssue::NormalTravelTimeUnavailable]
                } else {
                    Seq::empty()
                }
            },
            out.travel_time_mode == if out.travel_time_ms is Some {
                TravelTimeMode::NormalArcSum
            } else {
                TravelTimeMode::Unavailable
            },
    {
        let resolution = self.resolve_arc_ids(route);
        let ghost issue = resolution.issue;
        let mut issues: Vec<RouteIssue> = Vec::new();
        match resolution.issue {
            Some(e) => issues.push(e),
            None => {},
        }
        let ghost after_resolution = issues@;
        let travel_time_ms = match &resolution.arc_ids {
            Some(ids) => match sum_weighted_arcs(ids, current_weights) {
                Ok(total) => Some(total),
                Err(e) => {
                    issues.push(e);
                    None
                },
            },
            None => None,
        };
        let ghost after_sum = issues@;
        if travel_time_ms.is_none() {
            issues.push(RouteIssue::NormalTravelTimeUnavailable);
        }
        let travel_time_mode = if travel_time_ms.is_some() {
            TravelTimeMode::NormalArcSum
        } else {
            TravelTimeMode::Unavailable
        };
        let out = RouteOutcome {
            route_arc_ids: resolution.arc_ids,
            travel_time_ms,
            travel_time_mode,
            distance_mode: resolution.distance_mode,
            issues,
        };
        proof {
            assert(after_resolution =~= opt_seq(issue));
            assert(after_sum =~= opt_seq(issue) + opt_seq(normal_travel(ids_view(&out.route_arc_ids), current_weights@).1));
            assert(out.issues@ =~= opt_seq(issue) + opt_seq(normal_travel(ids_view(&out.route_arc_ids), current_weights@).1)
                + if out.travel_time_ms is None {
                seq![RouteIssue::NormalTravelTimeUnavailable]
            } else {
                Seq::empty()
            });
        }
        out
    }
}

impl LineGraphRouteEvaluator {
    /// What a route that lists neither arc ids nor path nodes resolves to: the
    /// original arcs of its line-graph node path when it comes from a
    /// line-graph server and has one.
    pub open spec fn lg_fallback(&self, route: &ParsedRoute) -> (Option<Seq<u32>>, DistanceMode, Option<RouteIssue>) {
        let geometry = geometry_mode(route.geometry_len);
        if is_line_graph_export(route) && route.weight_path_ids is Some {
            let w = route.weight_path_ids->Some_0@;
            match first_not_below(w, self.spec_arc_of_lg_node().len() as int) {
                Some(node) => (None, geometry, Some(RouteIssue::LineGraphNodeOutOfDataset { node })),
                None => (
                    Some(Seq::new(w.len(), |i: int| self.spec_arc_of_lg_node()[w[i] as int])),
                    DistanceMode::WeightPathIds,
                    None,
                ),
            }
        } else {
            (None, geometry, None)
        }
    }

    /// The saturating sum of pseudo-normal weights of the given arcs.
    pub open spec fn pseudo_sum(&self, ids: Seq<u32>, weights: Seq<u32>) -> Result<u32, RouteIssue> {
        sat_fold(Seq::new(ids.len(), |i: int| self.pseudo_normal_weight(ids[i], weights)), ids.len() as int)
    }

    /// The replayed travel time of a line-graph node path.
    pub open spec fn exact_sum(&self, path: Seq<u32>, weights: Seq<u32>) -> Result<u32, RouteIssue> {
        if path.len() == 0 {
            Ok(0)
        } else {
            sat_fold(replay_steps(self.spec_travel_time(), self.spec_lg_first_out(), self.spec_lg_head(), weights, path), path.len() as int)
        }
    }

    /// Travel time from the pseudo-normal weights of resolved arcs, its mode
    /// and the issues met.
    pub open spec fn pseudo_fallback(&self, ids: Option<Seq<u32>>, weights: Seq<u32>) -> (Option<u32>, TravelTimeMode, Seq<RouteIssue>) {
        match ids {
            Some(ids) => match self.pseudo_sum(ids, weights) {
                Ok(t) => (Some(t), TravelTimeMode::LineGraphPseudoNormal, Seq::empty()),
                Err(e) => (None, TravelTimeMode::Unavailable, seq![e]),
            },
            None => (None, TravelTimeMode::Unavailable, Seq::empty()),
        }
    }

    /// Travel time of a route on a line-graph server: the exact replay of its
    /// line-graph node path when it comes from a line-graph server and has
    /// one, else (or when that fails) the pseudo-normal sum over its arcs.
    pub open spec fn lg_travel(&self, route: &ParsedRoute, ids: Option<Seq<u32>>, weights: Seq<u32>) -> (Option<u32>, TravelTimeMode, Seq<RouteIssue>) {
        if is_line_graph_export(route) && route.weight_path_ids is Some {
            match self.exact_sum(route.weight_path_ids->Some_0@, weights) {
                Ok(t) => (Some(t), TravelTimeMode::ExactWeightPath, Seq::empty()),
                Err(e) => {
                    let f = self.pseudo_fallback(ids, weights);
                    (f.0, f.1, seq![e] + f.2)
                },
            }
        } else {
            self.pseudo_fallback(ids, weights)
        }
    }

    /// Resolves the original arcs of a route: listed arc ids, else path
    /// nodes, else the line-graph node path of a line-graph export.
    pub fn resolve_arc_ids(&self, route: &ParsedRoute) -> (res: ArcResolution)
        requires
            self.wf(),
        ensures
            resolves_listed(
                route,
                self.spec_original_first_out(),
                self.spec_original_head(),
                self.spec_original_head().len() as int,
                self.lg_fallback(route),
                (ids_view(&res.arc_ids), res.distance_mode, res.issue),
            ),
    {
        match resolve_listed(route, &self.original_first_out, &self.original_head, self.original_head.len()) {
            Some(r) => {
                return r;
            },
            None => {},
        }
        let geometry = geometry_distance_mode(route.geometry_len);
        if line_graph_export(route) {
            match &route.weight_path_ids {
                Some(path) => {
                    return match self.map_line_graph_nodes_to_original_arcs(path) {
                        Ok(ids) => ArcResolution { arc_ids: Some(ids), distance_mode: DistanceMode::WeightPathIds, issue: None },
                        Err(e) => ArcResolution { arc_ids: None, distance_mode: geometry, issue: Some(e) },
                    };
                },
                None => {},
            }
        }
        ArcResolution { arc_ids: None, distance_mode: geometry, issue: None }
    }

    fn pseudo_normal_fallback(&self, route_arc_ids: &Option<Vec<u32>>, current_weights: &Vec<u32>, issues: &mut Vec<RouteIssue>) -> (res: (Option<u32>, TravelTimeMode))
        requires
            self.wf(),
        ensures
            res.0 == self.pseudo_fallback(ids_view(route_arc_ids), current_weights@).0,
            res.1 == self.pseudo_fallback(ids_view(route_arc_ids), current_weights@).1,
            final(issues)@ == old(issues)@ + self.pseudo_fallback(ids_view(route_arc_ids), current_weights@).2,
    {
        match route_arc_ids {
            Some(ids) => match self.sum_pseudo_normal_arcs(ids, current_weights) {
                Ok(total) => {
                    proof {
                        assert(old(issues)@ + Seq::<RouteIssue>::empty() =~= old(issues)@);
                    }
                    (Some(total), TravelTimeMode::LineGraphPseudoNormal)
                },
                Err(e) => {
                    issues.push(e);
                    proof {
                        assert(final(issues)@ =~= old(issues)@ + seq![e]);
                    }
                    (None, TravelTimeMode::Unavailable)
                },
            },
            None => {
                proof {
                    assert(old(issues)@ + Seq::<RouteIssue>::empty() =~= old(issues)@);
                }
                (None, TravelTimeMode::Unavailable)
            },
        }
    }

    /// Evaluates one route against the active turn weights.
    pub fn evaluate(&self, route: &ParsedRoute, current_weights: &Vec<u32>) -> (out: RouteOutcome)
        requires
            self.wf(),
        ensures
            exists|issue: Option<RouteIssue>| {
                &&& resolves_listed(
                    route,
                    self.spec_original_first_out(),
                    self.spec_original_head(),
                    self.spec_original_head().len() as int,
                    self.lg_fallback(route),
                    (ids_view(&out.route_arc_ids), out.distance_mode, issue),
                )
                &&& out.travel_time_ms == self.lg_travel(route, ids_view(&out.route_arc_ids), current_weights@).0
                &&& out.travel_time_mode == self.lg_travel(route, ids_view(&out.route_arc_ids), current_weights@).1
                &&& out.issues@ == opt_seq(issue) + self.lg_travel(route, ids_view(&out.route_arc_ids), current_weights@).2
                    + if out.travel_time_ms is None {
                    seq![RouteIssue::LineGraphTravelTimeUnavailable]
                } else {
                    Seq::empty()
                }
            },
    {
        let resolution = self.resolve_arc_ids(route);
        let ghost issue = resolution.issue;
        let ghost ids = ids_view(&resolution.arc_ids);
        let mut issues: Vec<RouteIssue> = Vec::new();
        match resolution.issue {
            Some(e) => issues.push(e),
            None => {},
        }
        let ghost after_resolution = issues@;
        proof {
            assert(after_resolution =~= opt_seq(issue));
        }
        let lg_export = line_graph_export(route);
        let (travel_time_ms, travel_time_mode) = if lg_export && route.weight_path_ids.is_some() {
            let path = route.weight_path_ids.as_ref().unwrap();
            match self.sum_exact_line_graph_path(path, current_weights) {
                Ok(total) => {
                    proof {
                        assert(issues@ =~= opt_seq(issue) + Seq::<RouteIssue>::empty());
                    }
                    (Some(total), TravelTimeMode::ExactWeightPath)
                },
                Err(e) => {
                    issues.push(e);
                    let ghost mid = issues@;
                    let r = self.pseudo_normal_fallback(&resolution.arc_ids, current_weights, &mut issues);
                    proof {
                        assert(issues@ =~= opt_seq(issue) + (seq![e] + self.pseudo_fallback(ids, current_weights@).2));
                    }
                    r
                },
            }
        } else {
            self.pseudo_normal_fallback(&resolution.arc_ids, current_weights, &mut issues)
        };
        let ghost after_travel = issues@;
        proof {
            assert(after_travel =~= opt_seq(issue) + self.lg_travel(route, ids, current_weights@).2);
        }
        if travel_time_ms.is_none() {
            issues.push(RouteIssue::LineGraphTravelTimeUnavailable);
        }
        let out = RouteOutcome {
            route_arc_ids: resolution.arc_ids,
            travel_time_ms,
            travel_time_mode,
            distance_mode: resolution.distance_mode,
            issues,
        };
        proof {
            assert(out.issues@ =~= opt_seq(issue) + self.lg_travel(route, ids, current_weights@).2 + if out.travel_time_ms is None {
                seq![RouteIssue::LineGraphTravelTimeUnavailable]
            } else {
                Seq::empty()
            });
        }
        out
    }
}

/// Why an evaluation request was refused before any route was evaluated.
#[derive(Clone, Copy, Debug, PartialEq, Eq, Structural)]
pub enum RouteCountError {
    /// The request carries no route.
    NoRoutes,
    /// The request carries more than [`MAX_ROUTE_EVALUATIONS`] routes.
    TooManyRoutes,
}

/// Checks the number of routes in one evaluation request.
pub fn check_route_count(count: usize) -> (res: Result<(), RouteCountError>)
    ensures
        count == 0 ==> res == Err::<(), RouteCountError>(RouteCountError::NoRoutes),
        count > MAX_ROUTE_EVALUATIONS ==> res == Err::<(), RouteCountError>(RouteCountError::TooManyRoutes),
        1 <= count <= MAX_ROUTE_EVALUATIONS ==> res is Ok,
{
    if count == 0 {
        Err(RouteCountError::NoRoutes)
    } else if count > MAX_ROUTE_EVALUATIONS {
        Err(RouteCountError::TooManyRoutes)
    } else {
        Ok(())
    }
}

/// Route replay for the graph a server was started on.
pub enum RouteEvaluator {
    Normal(NormalRouteEvaluator),
    LineGraph(LineGraphRouteEvaluator),
}

impl RouteEvaluator {
    pub open spec fn wf(&self) -> bool {
        match self {
            RouteEvaluator::Normal(ev) => ev.wf(),
            RouteEvaluator::LineGraph(ev) => ev.wf(),
        }
    }

    /// The name of the graph type, as reported to clients.
    pub fn graph_type(&self) -> (name: &'static str)
        ensures
            self is Normal ==> name@ == "normal"@,
            self is LineGraph ==> name@ == "line_graph"@,
    {
        match self {
            RouteEvaluator::Normal(_) => "normal",
            RouteEvaluator::LineGraph(_) => "line_graph",
        }
    }

    /// What evaluating `route` against `weights` gives on this server.
    pub open spec fn evaluated(&self, route: &ParsedRoute, current_weights: Seq<u32>, out: &RouteOutcome) -> bool {
            match self {
                RouteEvaluator::Normal(ev) => exists|issue: Option<RouteIssue>| {
                    &&& resolves_listed(
                        route,
                        ev.spec_first_out(),
                        ev.spec_head(),
                        ev.spec_head().len() as int,
                        (None, geometry_mode(route.geometry_len), None),
                        (ids_view(&out.route_arc_ids), out.distance_mode, issue),
                    )
                    &&& out.travel_time_ms == normal_travel(ids_view(&out.route_arc_ids), current_weights).0
                    &&& out.issues@ == opt_seq(issue) + opt_seq(normal_travel(ids_view(&out.route_arc_ids), current_weights).1)
                        + if out.travel_time_ms is None {
                        seq![RouteIssue::NormalTravelTimeUnavailable]
                    } else {
                        Seq::empty()
                    }
                },
                RouteEvaluator::LineGraph(ev) => exists|issue: Option<RouteIssue>| {
                    &&& resolves_listed(
                        route,
                        ev.spec_original_first_out(),
                        ev.spec_original_head(),
                        ev.spec_original_head().len() as int,
                        ev.lg_fallback(route),
                        (ids_view(&out.route_arc_ids), out.distance_mode, issue),
                    )
                    &&& out.travel_time_ms == ev.lg_travel(route, ids_view(&out.route_arc_ids), current_weights).0
                    &&& out.travel_time_mode == ev.lg_travel(route, ids_view(&out.route_arc_ids), current_weights).1
                    &&& out.issues@ == opt_seq(issue) + ev.lg_travel(route, ids_view(&out.route_arc_ids), current_weights).2
                        + if out.travel_time_ms is None {
                        seq![RouteIssue::LineGraphTravelTimeUnavailable]
                    } else {
                        Seq::empty()
                    }
                },
            }
    }

    /// Evaluates one route with the evaluator of the server's graph type.
    pub fn evaluate(&self, route: &ParsedRoute, current_weights: &Vec<u32>) -> (out: RouteOutcome)
        requires
            self.wf(),
        ensures
            self.evaluated(route, current_weights@, &out),
    {
        match self {
            RouteEvaluator::Normal(ev) => ev.evaluate(route, current_weights),
            RouteEvaluator::LineGraph(ev) => ev.evaluate(route, current_weights),
        }
    }

    /// Evaluates every route in order.
    pub fn evaluate_routes(&self, routes: &Vec<ParsedRoute>, current_weights: &Vec<u32>) -> (outs: Vec<RouteOutcome>)
        requires
            self.wf(),
        ensures
            outs@.len() == routes@.len(),
            forall|i: int| 0 <= i < routes@.len() ==> self.evaluated(&routes@[i], current_weights@, &#[trigger] outs@[i]),
    {
        let mut outs: Vec<RouteOutcome> = Vec::new();
        let mut i: usize = 0;
        while i < routes.len()
            invariant
                self.wf(),
                i <= routes@.len(),
                outs@.len() == i,
                forall|j: int| 0 <= j < i ==> self.evaluated(&routes@[j], current_weights@, &#[trigger] outs@[j]),
            decreases routes@.len() - i,
        {
            outs.push(self.evaluate(&routes[i], current_weights));
            i = i + 1;
        }
        outs
    }
}

/// The arcs replayed from a node path follow the path: arc `i` leaves node
/// `i` of the path and enters node `i + 1`.
pub proof fn lemma_path_arcs_follow_path(first_out: Seq<u32>, head: Seq<u32>, nodes: Seq<u32>, ids: Seq<u32>)
    requires
        arcs_of_path(first_out, head, nodes, ids),
    ensures
        forall|i: int|
            0 <= i < ids.len() ==> crate::graph::arc_of_node(first_out, nodes[i] as int, #[trigger] ids[i] as int) && head[ids[i] as int]
                == nodes[i + 1],
{
    assert forall|i: int| 0 <= i < ids.len() implies crate::graph::arc_of_node(first_out, nodes[i] as int, #[trigger] ids[i] as int)
        && head[ids[i] as int] == nodes[i + 1] by {
        assert(path_step(first_out, head, nodes[i], nodes[i + 1]) == Ok::<u32, RouteIssue>(ids[i]));
        let a = nodes[i];
        lemma_first_head_match_range(head, first_out[a as int] as int, first_out[a as int + 1] as int, nodes[i + 1]);
    }
}

} // verus!
