//! Alternative routes through the common elimination-tree ancestors of the
//! two end points of a query: the bidirectional walk that collects the
//! meeting nodes, path reconstruction and unpacking, and the admissibility
//! tests (no repeated nodes, bounded stretch, limited sharing of arcs with
//! the routes already accepted, and local optimality around the via node,
//! the T-test).

use vstd::prelude::*;
use vstd::hash_set::HashSetWithView;
use crate::graph::{arc_of_node, copy_ids, INFINITY};
use crate::tree_walk::{
    arc_path, chordal_upward, lemma_walk_distance_optimal, arcs_weight, lemma_meeting_candidates_facts, chain_shape, parent_ok, upward_weighted, common_reached, elimination_tree_walk, lemma_tree_chain_shape, meeting_candidates, num_walk_nodes, sort_by_distance,
    sorted_by_distance, tree_chain, walk_dist, walk_state, walkable, chordal_customization, first_meeting_shortest,
    lemma_first_meeting_shortest,
};
use crate::cch::{elimination_tree_of, CCHT};
use crate::customized::{Customized, followable, unpacked};
use crate::route_eval::sat_add;

verus! {

broadcast use vstd::std_specs::hash::group_hash_axioms;

/// Some node occurs twice on the path.
pub open spec fn repeats(path: Seq<u32>) -> bool {
    exists|i: int, j: int| #![trigger path[i], path[j]] 0 <= i < j < path.len() && path[i] == path[j]
}

/// A path repeats exactly when two different positions hold the same node,
/// wherever on the path they are.
pub proof fn lemma_repeats_iff_some_node_twice(path: Seq<u32>)
    ensures
        repeats(path) <==> exists|i: int, j: int| #![trigger path[i], path[j]] 0 <= i < j < path.len() && path[i] == path[j],
        !repeats(path) ==> forall|i: int, j: int| 0 <= i < path.len() && 0 <= j < path.len() && i != j ==> path[i] != path[j],
{
    if !repeats(path) {
        assert forall|i: int, j: int| 0 <= i < path.len() && 0 <= j < path.len() && i != j implies path[i] != path[j] by {
            if i < j {
                if path[i] == path[j] {
                    assert(repeats(path));
                }
            } else {
                if path[j] == path[i] {
                    assert(repeats(path));
                }
            }
        }
    }
}

/// Whether a node occurs twice on the path (a U-turn loop or a backtrack).
pub fn has_repeated_nodes(path: &Vec<u32>) -> (b: bool)
    ensures
        b == repeats(path@),
        b <==> exists|i: int, j: int| #![trigger path@[i], path@[j]] 0 <= i < j < path@.len() && path@[i] == path@[j],
{
    let mut seen: HashSetWithView<u32> = HashSetWithView::new();
    let mut i: usize = 0;
    while i < path.len()
        invariant
            i <= path@.len(),
            forall|v: u32| seen@.contains(v) <==> exists|j: int| 0 <= j < i && path@[j] == v,
            forall|a: int, b: int| #![trigger path@[a], path@[b]] 0 <= a < b < i ==> path@[a] != path@[b],
        decreases path@.len() - i,
    {
        let node = path[i];
        if !seen.insert(node) {
            proof {
                let j = choose|j: int| 0 <= j < i && path@[j] == node;
                assert(path@[j] == path@[i as int]);
            }
            return true;
        }
        proof {
            assert forall|a: int, b: int| #![trigger path@[a], path@[b]] 0 <= a < b < i + 1 implies path@[a] != path@[b] by {
                if b == i {
                    if path@[a] == node {
                        assert(exists|j: int| 0 <= j < i && path@[j] == node);
                    }
                }
            }
        }
        i = i + 1;
    }
    false
}

/// The key of the arc `a -> b` in an arc set.
pub open spec fn arc_key(a: u32, b: u32) -> u64 {
    (a as int * 4294967296 + b as int) as u64
}

/// Arc keys identify arcs: two arcs with the same key are the same arc.
pub proof fn lemma_arc_key_injective(a: u32, b: u32, c: u32, d: u32)
    ensures
        arc_key(a, b) == arc_key(c, d) ==> a == c && b == d,
{
    assert(a as int * 4294967296 + b as int <= u64::MAX) by (nonlinear_arith)
        requires a <= u32::MAX, b <= u32::MAX;
    assert(c as int * 4294967296 + d as int <= u64::MAX) by (nonlinear_arith)
        requires c <= u32::MAX, d <= u32::MAX;
    if a as int * 4294967296 + b as int == c as int * 4294967296 + d as int {
        assert(a == c && b == d) by (nonlinear_arith)
            requires
                a as int * 4294967296 + b as int == c as int * 4294967296 + d as int,
                b <= u32::MAX,
                d <= u32::MAX,
        ;
    }
}

fn arc_key_of(a: u32, b: u32) -> (k: u64)
    ensures
        k == arc_key(a, b),
{
    assert(a as int * 4294967296 + b as int <= u64::MAX) by (nonlinear_arith)
        requires a <= u32::MAX, b <= u32::MAX;
    a as u64 * 4294967296 + b as u64
}

/// The arcs of the first `k` steps of a path, as keys.
pub open spec fn path_arcs(path: Seq<u32>, k: int) -> Set<u64> {
    Set::new(|key: u64| exists|i: int| 0 <= i < k && i + 1 < path.len() && key == #[trigger] arc_key(path[i], path[i + 1]))
}

/// The arcs of a path, as keys.
pub open spec fn all_path_arcs(path: Seq<u32>) -> Set<u64> {
    path_arcs(path, path.len() - 1)
}

proof fn lemma_path_arcs_step(path: Seq<u32>, k: int)
    requires
        0 <= k,
        k + 1 < path.len(),
    ensures
        path_arcs(path, k + 1) == path_arcs(path, k).insert(arc_key(path[k], path[k + 1])),
{
    assert(path_arcs(path, k + 1) =~= path_arcs(path, k).insert(arc_key(path[k], path[k + 1])));
}

proof fn lemma_path_arcs_finite(path: Seq<u32>, k: int)
    requires
        0 <= k,
    ensures
        path_arcs(path, k).finite(),
        path_arcs(path, k).len() <= k,
    decreases k,
{
    if k == 0 {
        assert(path_arcs(path, 0) =~= Set::empty());
    } else if k + 1 > path.len() {
        if k - 1 >= 0 {
            lemma_path_arcs_finite(path, k - 1);
            assert(path_arcs(path, k) =~= path_arcs(path, k - 1)) by {
                assert forall|key: u64| path_arcs(path, k).contains(key) implies path_arcs(path, k - 1).contains(key) by {
                    let i = choose|i: int| 0 <= i < k && i + 1 < path.len() && key == #[trigger] arc_key(path[i], path[i + 1]);
                    assert(i < k - 1);
                }
            }
        }
    } else {
        lemma_path_arcs_finite(path, k - 1);
        lemma_path_arcs_step(path, k - 1);
    }
}

/// The set of arcs of a path.
pub fn arc_set(path: &Vec<u32>) -> (set: HashSetWithView<u64>)
    ensures
        set@ == all_path_arcs(path@),
{
    let mut set: HashSetWithView<u64> = HashSetWithView::new();
    if path.len() < 2 {
        proof {
            assert(all_path_arcs(path@) =~= Set::empty());
        }
        return set;
    }
    let mut i: usize = 0;
    proof {
        assert(path_arcs(path@, 0) =~= Set::empty());
    }
    while i < path.len() - 1
        invariant
            path@.len() >= 2,
            i <= path@.len() - 1,
            set@ == path_arcs(path@, i as int),
        decreases path@.len() - 1 - i,
    {
        let key = arc_key_of(path[i], path[i + 1]);
        set.insert(key);
        proof {
            lemma_path_arcs_step(path@, i as int);
        }
        i = i + 1;
    }
    set
}

/// How many distinct arcs of `candidate` also belong to `other` (an arc
/// set), and how many distinct arcs `candidate` has.
pub fn shared_arcs(candidate: &Vec<u32>, other: &HashSetWithView<u64>) -> (res: (usize, usize))
    ensures
        res.0 == all_path_arcs(candidate@).intersect(other@).len(),
        res.1 == all_path_arcs(candidate@).len(),
{
    let mut seen: HashSetWithView<u64> = HashSetWithView::new();
    let mut shared: usize = 0;
    let mut total: usize = 0;
    if candidate.len() < 2 {
        proof {
            assert(all_path_arcs(candidate@) =~= Set::empty());
            assert(all_path_arcs(candidate@).intersect(other@) =~= Set::empty());
        }
        return (0, 0);
    }
    let m = candidate.len() - 1;
    proof {
        assert(path_arcs(candidate@, 0) =~= Set::empty());
        assert(path_arcs(candidate@, 0).intersect(other@) =~= Set::empty());
    }
    let mut i: usize = 0;
    while i < m
        invariant
            m == candidate@.len() - 1,
            i <= m,
            seen@ == path_arcs(candidate@, i as int),
            total == seen@.len(),
            shared == seen@.intersect(other@).len(),
            shared <= total,
            total <= i,
        decreases m - i,
    {
        let key = arc_key_of(candidate[i], candidate[i + 1]);
        proof {
            lemma_path_arcs_finite(candidate@, i as int);
            lemma_path_arcs_step(candidate@, i as int);
        }
        let fresh = seen.insert(key);
        if fresh {
            total = total + 1;
            if other.contains(&key) {
                proof {
                    assert(path_arcs(candidate@, i + 1).intersect(other@) =~= path_arcs(candidate@, i as int).intersect(other@).insert(key));
                }
                shared = shared + 1;
            } else {
                proof {
                    assert(path_arcs(candidate@, i + 1).intersect(other@) =~= path_arcs(candidate@, i as int).intersect(other@));
                }
            }
        } else {
            proof {
                assert(path_arcs(candidate@, i + 1) =~= path_arcs(candidate@, i as int));
            }
        }
        i = i + 1;
    }
    (shared, total)
}

/// The sharing ratio `shared / total` exceeds 0.8 (a candidate without arcs
/// counts as fully shared). Compared exactly, in integers.
pub open spec fn sharing_exceeds(shared: int, total: int) -> bool {
    total == 0 || 5 * shared > 4 * total
}

/// Whether a candidate shares too many arcs with an accepted route.
pub fn too_similar(shared: usize, total: usize) -> (b: bool)
    requires
        shared <= total,
    ensures
        b == sharing_exceeds(shared as int, total as int),
{
    if total == 0 {
        return true;
    }
    (shared as u128) * 5 > (total as u128) * 4
}

/// Whether a candidate path shares more than 80% of its arcs with any of
/// the accepted routes' arc sets.
pub fn too_similar_to_any(candidate: &Vec<u32>, accepted: &Vec<HashSetWithView<u64>>) -> (b: bool)
    ensures
        b == exists|k: int|
            0 <= k < accepted@.len() && sharing_exceeds(
                all_path_arcs(candidate@).intersect(#[trigger] accepted@[k]@).len() as int,
                all_path_arcs(candidate@).len() as int,
            ),
{
    let mut k: usize = 0;
    while k < accepted.len()
        invariant
            k <= accepted@.len(),
            forall|j: int|
                0 <= j < k ==> !sharing_exceeds(
                    all_path_arcs(candidate@).intersect(#[trigger] accepted@[j]@).len() as int,
                    all_path_arcs(candidate@).len() as int,
                ),
        decreases accepted@.len() - k,
    {
        let (shared, total) = shared_arcs(candidate, &accepted[k]);
        proof {
            if candidate@.len() >= 1 {
                lemma_path_arcs_finite(candidate@, candidate@.len() - 1);
            } else {
                assert(all_path_arcs(candidate@) =~= Set::empty());
            }
            vstd::set_lib::lemma_len_intersect(all_path_arcs(candidate@), accepted@[k as int]@);
        }
        if too_similar(shared, total) {
            return true;
        }
        k = k + 1;
    }
    false
}

/// Saturating prefix sums of the costs, starting at 0.
pub open spec fn prefix_costs(costs: Seq<u32>) -> Seq<u32>
    decreases costs.len(),
{
    if costs.len() == 0 {
        seq![0u32]
    } else {
        let p = prefix_costs(costs.drop_last());
        p.push(sat_add(p.last(), costs.last()))
    }
}

/// The cumulative costs start at 0 and each adds the next arc's cost,
/// saturating at `u32::MAX`.
pub proof fn lemma_prefix_costs_steps(costs: Seq<u32>)
    ensures
        prefix_costs(costs).len() == costs.len() + 1,
        prefix_costs(costs)[0] == 0,
        forall|i: int|
            0 <= i < costs.len() ==> #[trigger] prefix_costs(costs)[i + 1] == if prefix_costs(costs)[i] + costs[i] > u32::MAX {
                u32::MAX as int
            } else {
                prefix_costs(costs)[i] + costs[i]
            },
    decreases costs.len(),
{
    if costs.len() > 0 {
        let rest = costs.drop_last();
        lemma_prefix_costs_steps(rest);
        let p = prefix_costs(rest);
        assert forall|i: int| 0 <= i < costs.len() implies #[trigger] prefix_costs(costs)[i + 1] == if prefix_costs(costs)[i]
            + costs[i] > u32::MAX {
            u32::MAX as int
        } else {
            prefix_costs(costs)[i] + costs[i]
        } by {
            if i < rest.len() {
                assert(prefix_costs(costs)[i + 1] == p[i + 1]);
                assert(prefix_costs(costs)[i] == p[i]);
                assert(costs[i] == rest[i]);
            } else {
                assert(prefix_costs(costs)[i] == p.last());
            }
        }
    }
}

proof fn lemma_prefix_costs_len(costs: Seq<u32>)
    ensures
        prefix_costs(costs).len() == costs.len() + 1,
    decreases costs.len(),
{
    if costs.len() > 0 {
        lemma_prefix_costs_len(costs.drop_last());
    }
}

/// The cumulative costs along a path with the given arc costs.
pub fn cumulative_costs(costs: &Vec<u32>) -> (cum: Vec<u32>)
    ensures
        cum@ == prefix_costs(costs@),
{
    let mut cum: Vec<u32> = Vec::new();
    cum.push(0);
    let mut i: usize = 0;
    proof {
        assert(costs@.take(0) =~= Seq::<u32>::empty());
    }
    while i < costs.len()
        invariant
            i <= costs@.len(),
            cum@ == prefix_costs(costs@.take(i as int)),
        decreases costs@.len() - i,
    {
        proof {
            lemma_prefix_costs_len(costs@.take(i as int));
        }
        let last = cum[cum.len() - 1];
        cum.push(last.saturating_add(costs[i]));
        proof {
            assert(costs@.take(i + 1).drop_last() =~= costs@.take(i as int));
            assert(costs@.take(i + 1).last() == costs@[i as int]);
        }
        i = i + 1;
    }
    proof {
        assert(costs@.take(costs@.len() as int) =~= costs@);
    }
    cum
}

/// Half the width of the T-test interval: a quarter of the best distance.
pub open spec fn t_half(best_distance: u32) -> u32 {
    (best_distance / 4) as u32
}

/// Scanning down from `p`: the first position whose cumulative cost is at
/// most `target`, or 0.
pub open spec fn interval_start(cum: Seq<u32>, p: int, target: u32) -> int
    decreases p + 1,
{
    if p < 0 {
        0
    } else if cum[p] <= target {
        p
    } else {
        interval_start(cum, p - 1, target)
    }
}

/// Scanning up from `q`: the first position whose cumulative cost is at
/// least `target`, or the last position.
pub open spec fn interval_end(cum: Seq<u32>, q: int, target: u32) -> int
    decreases cum.len() - q,
{
    if q >= cum.len() {
        cum.len() - 1
    } else if cum[q] >= target {
        q
    } else {
        interval_end(cum, q + 1, target)
    }
}

proof fn lemma_interval_start_bounds(cum: Seq<u32>, p: int, target: u32)
    requires
        p < cum.len(),
    ensures
        0 <= interval_start(cum, p, target),
        p < 0 || interval_start(cum, p, target) <= p,
    decreases p + 1,
{
    if p >= 0 && cum[p] > target {
        lemma_interval_start_bounds(cum, p - 1, target);
    }
}

proof fn lemma_interval_end_bounds(cum: Seq<u32>, q: int, target: u32)
    requires
        0 <= q,
        cum.len() >= 1,
    ensures
        q <= cum.len() - 1 ==> q <= interval_end(cum, q, target),
        interval_end(cum, q, target) < cum.len(),
        interval_end(cum, q, target) >= 0,
    decreases cum.len() - q,
{
    if q < cum.len() && cum[q] < target {
        lemma_interval_end_bounds(cum, q + 1, target);
    }
}

/// The start of the T-test interval is the last position at or before `p`
/// whose cumulative cost is at most `target`, or 0 when there is none.
pub proof fn lemma_interval_start_is_last_within(cum: Seq<u32>, p: int, target: u32)
    requires
        p < cum.len(),
    ensures
        (exists|k: int| 0 <= k <= p && cum[k] <= target) ==> {
            &&& 0 <= interval_start(cum, p, target) <= p
            &&& cum[interval_start(cum, p, target)] <= target
            &&& forall|q: int| interval_start(cum, p, target) < q <= p ==> cum[q] > target
        },
        !(exists|k: int| 0 <= k <= p && cum[k] <= target) ==> interval_start(cum, p, target) == 0,
    decreases p + 1,
{
    if p >= 0 && cum[p] > target {
        lemma_interval_start_is_last_within(cum, p - 1, target);
        if exists|k: int| 0 <= k <= p && cum[k] <= target {
            let k = choose|k: int| 0 <= k <= p && cum[k] <= target;
            assert(k <= p - 1);
        }
    }
}

/// The end of the T-test interval is the first position at or after `q`
/// whose cumulative cost is at least `target`, or the last position when
/// there is none.
pub proof fn lemma_interval_end_is_first_beyond(cum: Seq<u32>, q: int, target: u32)
    requires
        0 <= q,
        cum.len() >= 1,
    ensures
        (exists|k: int| q <= k < cum.len() && cum[k] >= target) ==> {
            &&& q <= interval_end(cum, q, target) < cum.len()
            &&& cum[interval_end(cum, q, target)] >= target
            &&& forall|r: int| q <= r < interval_end(cum, q, target) ==> cum[r] < target
        },
        !(exists|k: int| q <= k < cum.len() && cum[k] >= target) ==> interval_end(cum, q, target) == cum.len() - 1,
    decreases cum.len() - q,
{
    if q < cum.len() && cum[q] < target {
        lemma_interval_end_is_first_beyond(cum, q + 1, target);
        if exists|k: int| q <= k < cum.len() && cum[k] >= target {
            let k = choose|k: int| q <= k < cum.len() && cum[k] >= target;
            assert(k >= q + 1);
        }
    }
}

/// The T-test interval `(v', v'')` around the via position: a quarter of
/// the best distance wide on each side, in cumulative cost.
pub fn t_interval(cum: &Vec<u32>, via_pos: usize, best_distance: u32) -> (res: (usize, usize))
    requires
        via_pos < cum@.len(),
    ensures
        res.0 == interval_start(cum@, via_pos as int, (if cum@[via_pos as int] >= t_half(best_distance) { cum@[via_pos as int] - t_half(best_distance) } else { 0 }) as u32),
        res.1 == interval_end(cum@, via_pos as int, sat_add(cum@[via_pos as int], t_half(best_distance))),
        res.0 <= via_pos <= res.1 < cum@.len(),
        ({
            let start_target = if cum@[via_pos as int] >= best_distance / 4 { cum@[via_pos as int] - best_distance / 4 } else { 0 };
            &&& (exists|k: int| 0 <= k <= via_pos && cum@[k] <= start_target) ==> cum@[res.0 as int] <= start_target
                && forall|q: int| res.0 < q <= via_pos ==> cum@[q] > start_target
            &&& !(exists|k: int| 0 <= k <= via_pos && cum@[k] <= start_target) ==> res.0 == 0
        }),
        ({
            let end_target = if cum@[via_pos as int] + best_distance / 4 > u32::MAX { u32::MAX as int } else { cum@[via_pos as int] + best_distance / 4 };
            &&& (exists|k: int| via_pos <= k < cum@.len() && cum@[k] >= end_target) ==> cum@[res.1 as int] >= end_target
                && forall|r: int| via_pos <= r < res.1 ==> cum@[r] < end_target
            &&& !(exists|k: int| via_pos <= k < cum@.len() && cum@[k] >= end_target) ==> res.1 == cum@.len() - 1
        }),
{
    let n = cum.len();
    let half = best_distance / 4;
    let mid_cost = cum[via_pos];
    let target_start = mid_cost.saturating_sub(half);
    let target_end = mid_cost.saturating_add(half);
    proof {
        lemma_interval_start_bounds(cum@, via_pos as int, target_start);
        lemma_interval_end_bounds(cum@, via_pos as int, target_end);
        lemma_interval_start_is_last_within(cum@, via_pos as int, target_start);
        lemma_interval_end_is_first_beyond(cum@, via_pos as int, target_end);
    }
    let mut p: usize = via_pos;
    while p > 0 && cum[p] > target_start
        invariant
            p <= via_pos < n,
            n == cum@.len(),
            interval_start(cum@, via_pos as int, target_start) == interval_start(cum@, p as int, target_start),
        decreases p,
    {
        p = p - 1;
    }
    let start = if cum[p] <= target_start { p } else { 0 };
    proof {
        if p == 0 && cum@[0] > target_start {
            assert(interval_start(cum@, -1, target_start) == 0);
        }
    }
    let mut q: usize = via_pos;
    while q < n && cum[q] < target_end
        invariant
            via_pos <= q <= n,
            n == cum@.len(),
            interval_end(cum@, via_pos as int, target_end) == interval_end(cum@, q as int, target_end),
        decreases n - q,
    {
        q = q + 1;
    }
    let end = if q < n { q } else { n - 1 };
    (start, end)
}

/// The outcome of the first half of the T-test.
#[derive(Clone, Copy, Debug, PartialEq, Eq, Structural)]
pub enum LocalOptStep {
    /// The candidate passes without a distance query.
    Accept,
    /// The subpath between the two positions costs `subpath_cost`; it must be
    /// compared with the shortest distance between its ends.
    Query { v_prime_pos: usize, v_double_pos: usize, subpath_cost: u32 },
}

/// The first half of the T-test on a path with the given arc costs and the
/// via node at `via_pos`: short paths, a via node that is not on the path,
/// an interval spanning the whole path and a free subpath pass at once;
/// otherwise the interval and its cost are to be compared with a shortest
/// distance.
pub open spec fn local_step(path_len: int, via_pos: Option<usize>, best_distance: u32, costs: Seq<u32>) -> LocalOptStep {
    if path_len < 3 || via_pos is None {
        LocalOptStep::Accept
    } else {
        let mid = via_pos.unwrap() as int;
        let cum = prefix_costs(costs);
        let vc = cum[mid];
        let half = t_half(best_distance);
        let lo = interval_start(cum, mid, (if vc >= half { vc - half } else { 0 }) as u32);
        let hi = interval_end(cum, mid, sat_add(vc, half));
        if lo == 0 && hi == path_len - 1 {
            LocalOptStep::Accept
        } else if cum[hi] - cum[lo] == 0 {
            LocalOptStep::Accept
        } else {
            LocalOptStep::Query { v_prime_pos: lo as usize, v_double_pos: hi as usize, subpath_cost: (cum[hi] - cum[lo]) as u32 }
        }
    }
}

/// The first half of the T-test (see `local_step`).
pub fn local_optimality_step(path_len: usize, via_pos: Option<usize>, best_distance: u32, costs: &Vec<u32>) -> (step: LocalOptStep)
    requires
        costs@.len() + 1 == path_len,
        via_pos matches Some(v) ==> v < path_len,
    ensures
        step == local_step(path_len as int, via_pos, best_distance, costs@),
        step matches LocalOptStep::Query { v_prime_pos, v_double_pos, subpath_cost } ==> v_prime_pos < v_double_pos < path_len,
        step matches LocalOptStep::Query { v_prime_pos, v_double_pos, subpath_cost } ==> {
            let cum = prefix_costs(costs@);
            let via = via_pos.unwrap() as int;
            let start_target = if cum[via] >= best_distance / 4 { cum[via] - best_distance / 4 } else { 0 };
            let end_target = if cum[via] + best_distance / 4 > u32::MAX { u32::MAX as int } else { cum[via] + best_distance / 4 };
            &&& v_prime_pos <= via <= v_double_pos
            &&& subpath_cost == cum[v_double_pos as int] - cum[v_prime_pos as int]
            &&& (exists|k: int| 0 <= k <= via && cum[k] <= start_target) ==> cum[v_prime_pos as int] <= start_target
                && forall|q: int| v_prime_pos < q <= via ==> cum[q] > start_target
            &&& !(exists|k: int| 0 <= k <= via && cum[k] <= start_target) ==> v_prime_pos == 0
            &&& (exists|k: int| via <= k < path_len && cum[k] >= end_target) ==> cum[v_double_pos as int] >= end_target
                && forall|r: int| via <= r < v_double_pos ==> cum[r] < end_target
            &&& !(exists|k: int| via <= k < path_len && cum[k] >= end_target) ==> v_double_pos == path_len - 1
        },
{
    if path_len < 3 {
        return LocalOptStep::Accept;
    }
    let mid = match via_pos {
        Some(v) => v,
        None => {
            return LocalOptStep::Accept;
        },
    };
    let cum = cumulative_costs(costs);
    proof {
        lemma_prefix_costs_len(costs@);
        lemma_prefix_monotone(costs@);
    }
    let (lo, hi) = t_interval(&cum, mid, best_distance);
    proof {
    }
    if lo == 0 && hi == path_len - 1 {
        return LocalOptStep::Accept;
    }
    let subpath_cost = cum[hi] - cum[lo];
    if subpath_cost == 0 {
        return LocalOptStep::Accept;
    }
    LocalOptStep::Query { v_prime_pos: lo, v_double_pos: hi, subpath_cost }
}

proof fn lemma_prefix_monotone(costs: Seq<u32>)
    ensures
        forall|i: int, j: int| 0 <= i <= j < prefix_costs(costs).len() ==> prefix_costs(costs)[i] <= prefix_costs(costs)[j],
    decreases costs.len(),
{
    lemma_prefix_costs_len(costs);
    if costs.len() > 0 {
        lemma_prefix_monotone(costs.drop_last());
        lemma_prefix_costs_len(costs.drop_last());
    }
}

/// The second half of the T-test: the subpath passes when it is at most
/// 10% longer than the shortest distance between its ends (rounded down).
pub open spec fn admissible(subpath_cost: u32, exact_dist: u32) -> bool {
    exact_dist < INFINITY && subpath_cost <= (11 * exact_dist) / 10
}

/// Compares the subpath cost with the shortest distance between its ends.
pub fn local_optimality_verdict(subpath_cost: u32, exact_dist: u32) -> (b: bool)
    ensures
        b == admissible(subpath_cost, exact_dist),
{
    if exact_dist >= INFINITY {
        return false;
    }
    let threshold = (exact_dist as u64 * 11) / 10;
    (subpath_cost as u64) <= threshold
}

/// The smaller of two ranks.
pub open spec fn min_rank(a: u32, b: u32) -> u32 {
    if a < b {
        a
    } else {
        b
    }
}

/// The unpacking entry of the arc `edge` from `tail` to `head`: an upward
/// arc when `tail < head`, else a downward one.
pub open spec fn unpacking_entry<C: Customized>(c: &C, tail: u32, head: u32, edge: u32) -> (Option<u32>, Option<u32>) {
    if tail < head {
        c.spec_up_unpacking()[edge as int]
    } else {
        c.spec_down_unpacking()[edge as int]
    }
}

/// Unpacking the arc from `tail` to `head` is possible: every entry on the
/// way can be looked up and followed, and every middle node lies below both
/// ends of its arc (as in a contraction hierarchy).
pub open spec fn unpack_ok<C: Customized>(c: &C, tail: u32, head: u32, edge: u32) -> bool
    decreases min_rank(tail, head),
{
    let in_range = if tail < head {
        (edge as int) < c.spec_up_unpacking().len()
    } else {
        (edge as int) < c.spec_down_unpacking().len()
    };
    in_range && {
        let entry = unpacking_entry(c, tail, head, edge);
        &&& followable(entry, c.spec_backward_tail().len() as int)
        &&& match unpacked(entry, c.spec_backward_tail()) {
            Some((down, up, middle)) => {
                &&& middle < tail
                &&& middle < head
                &&& unpack_ok(c, tail, middle, down)
                &&& unpack_ok(c, middle, head, up)
            },
            None => true,
        }
    }
}

/// The nodes strictly inside the arc from `tail` to `head` once fully
/// unpacked, in path order.
pub open spec fn unpacked_interior<C: Customized>(c: &C, tail: u32, head: u32, edge: u32) -> Seq<u32>
    decreases min_rank(tail, head),
{
    match unpacked(unpacking_entry(c, tail, head, edge), c.spec_backward_tail()) {
        Some((down, up, middle)) => if middle < tail && middle < head {
            unpacked_interior(c, tail, middle, down) + seq![middle] + unpacked_interior(c, middle, head, up)
        } else {
            Seq::empty()
        },
        None => Seq::empty(),
    }
}

/// Whether the arc from `tail` to `head` can be unpacked (see `unpack_ok`).
pub fn unpackable<C: Customized>(customized: &C, tail: u32, head: u32, edge: u32) -> (b: bool)
    ensures
        b == unpack_ok(customized, tail, head, edge),
    decreases min_rank(tail, head),
{
    let entry = if tail < head {
        let unpacking = customized.forward_unpacking();
        if edge as usize >= unpacking.len() {
            return false;
        }
        unpacking[edge as usize]
    } else {
        let unpacking = customized.backward_unpacking();
        if edge as usize >= unpacking.len() {
            return false;
        }
        unpacking[edge as usize]
    };
    match entry.0 {
        None => true,
        Some(down) => match entry.1 {
            None => false,
            Some(up) => {
                let backward_tail = customized.backward_tail();
                if down as usize >= backward_tail.len() {
                    return false;
                }
                let middle = backward_tail[down as usize];
                if !(middle < tail && middle < head) {
                    return false;
                }
                unpackable(customized, tail, middle, down) && unpackable(customized, middle, head, up)
            },
        },
    }
}

/// Whether every arc of a traced half can be unpacked.
fn all_unpackable<C: Customized>(customized: &C, arcs: &Vec<(u32, u32, u32)>) -> (b: bool)
    ensures
        b == arcs_unpackable(customized, arcs@),
{
    let mut i: usize = 0;
    while i < arcs.len()
        invariant
            i <= arcs@.len(),
            forall|j: int| 0 <= j < i ==> #[trigger] unpack_ok(customized, arcs@[j].0, arcs@[j].1, arcs@[j].2),
        decreases arcs@.len() - i,
    {
        let (tail, head, edge) = arcs[i];
        if !unpackable(customized, tail, head, edge) {
            return false;
        }
        i = i + 1;
    }
    true
}

/// Appends the interior nodes of the arc from `tail` to `head` to `path`.
pub fn unpack_edge_recursive<C: Customized>(tail: u32, head: u32, edge: u32, customized: &C, path: &mut Vec<u32>)
    requires
        unpack_ok(customized, tail, head, edge),
    ensures
        final(path)@ == old(path)@ + unpacked_interior(customized, tail, head, edge),
    decreases min_rank(tail, head),
{
    let unpacked = if tail < head {
        customized.unpack_outgoing(edge)
    } else {
        customized.unpack_incoming(edge)
    };
    match unpacked {
        Some((down_edge, up_edge, middle)) => {
            unpack_edge_recursive(tail, middle, down_edge, customized, path);
            path.push(middle);
            unpack_edge_recursive(middle, head, up_edge, customized, path);
            proof {
                assert(final(path)@ =~= old(path)@ + unpacked_interior(customized, tail, head, edge));
            }
        },
        None => {
            proof {
                assert(final(path)@ =~= old(path)@ + unpacked_interior(customized, tail, head, edge));
            }
        },
    }
}

/// Following forward parents from `node` back to `from` within `budget`
/// steps: the arcs `(parent, node, arc)` in path order; `None` when a node
/// is its own parent or the budget runs out first.
pub open spec fn fw_trace(parents: Seq<(u32, u32)>, from: u32, node: u32, budget: nat) -> Option<Seq<(u32, u32, u32)>>
    decreases budget,
{
    if node == from {
        Some(Seq::empty())
    } else if budget == 0 {
        None
    } else {
        let (p, e) = parents[node as int];
        if p == node {
            None
        } else {
            match fw_trace(parents, from, p, (budget - 1) as nat) {
                Some(s) => Some(s.push((p, node, e))),
                None => None,
            }
        }
    }
}

/// Following backward parents from `node` on to `to` within `budget` steps:
/// the arcs `(node, successor, arc)` in path order; `None` as above.
pub open spec fn bw_trace(parents: Seq<(u32, u32)>, to: u32, node: u32, budget: nat) -> Option<Seq<(u32, u32, u32)>>
    decreases budget,
{
    if node == to {
        Some(Seq::empty())
    } else if budget == 0 {
        None
    } else {
        let (s, e) = parents[node as int];
        if s == node {
            None
        } else {
            match bw_trace(parents, to, s, (budget - 1) as nat) {
                Some(rest) => Some(seq![(node, s, e)] + rest),
                None => None,
            }
        }
    }
}

/// The parent walk from `node` only reads parent entries that exist.
pub open spec fn walk_in_range(parents: Seq<(u32, u32)>, target: u32, node: u32, budget: nat) -> bool
    decreases budget,
{
    if node == target || budget == 0 {
        true
    } else {
        &&& (node as int) < parents.len()
        &&& (parents[node as int].0 == node || walk_in_range(parents, target, parents[node as int].0, (budget - 1) as nat))
    }
}

fn trace_forward(parents: &Vec<(u32, u32)>, from: u32, meeting: u32) -> (res: Option<Vec<(u32, u32, u32)>>)
    requires
        walk_in_range(parents@, from, meeting, parents@.len()),
    ensures
        match fw_trace(parents@, from, meeting, parents@.len()) {
            Some(s) => res is Some && res->Some_0@ == s,
            None => res is None,
        },
{
    let max_steps = parents.len();
    let mut rev: Vec<(u32, u32, u32)> = Vec::new();
    let mut node = meeting;
    let mut steps: usize = 0;
    let ghost mut done: Seq<(u32, u32, u32)> = Seq::empty();
    while node != from
        invariant
            max_steps == parents@.len(),
            steps <= max_steps,
            walk_in_range(parents@, from, node, (max_steps - steps) as nat),
            rev@ == done.reverse(),
            fw_trace(parents@, from, meeting, max_steps as nat) == match fw_trace(parents@, from, node, (max_steps - steps) as nat) {
                Some(s) => Some(s + done),
                None => None::<Seq<(u32, u32, u32)>>,
            },
        decreases max_steps - steps,
    {
        if steps >= max_steps {
            return None;
        }
        let (parent, edge) = parents[node as usize];
        if parent == node {
            return None;
        }
        rev.push((parent, node, edge));
        proof {
            let b = (max_steps - steps) as nat;
            assert(fw_trace(parents@, from, node, b) == match fw_trace(parents@, from, parent, (b - 1) as nat) {
                Some(s) => Some(s.push((parent, node, edge))),
                None => None::<Seq<(u32, u32, u32)>>,
            });
            match fw_trace(parents@, from, parent, (b - 1) as nat) {
                Some(s) => {
                    assert(s.push((parent, node, edge)) + done =~= s + (seq![(parent, node, edge)] + done));
                },
                None => {},
            }
            done = seq![(parent, node, edge)] + done;
            assert(rev@ =~= done.reverse());
        }
        node = parent;
        steps = steps + 1;
    }
    proof {
        assert(Seq::<(u32, u32, u32)>::empty() + done =~= done);
    }
    let mut out: Vec<(u32, u32, u32)> = Vec::new();
    let mut k = rev.len();
    while k > 0
        invariant
            k <= rev@.len(),
            rev@ == done.reverse(),
            out@ == done.take((rev@.len() - k) as int),
        decreases k,
    {
        k = k - 1;
        out.push(rev[k]);
        proof {
            assert(done.take(rev@.len() - k) =~= done.take(rev@.len() - k - 1).push(done[rev@.len() - k - 1]));
        }
    }
    proof {
        assert(done.take(rev@.len() as int) =~= done);
    }
    Some(out)
}

fn trace_backward(parents: &Vec<(u32, u32)>, to: u32, meeting: u32) -> (res: Option<Vec<(u32, u32, u32)>>)
    requires
        walk_in_range(parents@, to, meeting, parents@.len()),
    ensures
        match bw_trace(parents@, to, meeting, parents@.len()) {
            Some(s) => res is Some && res->Some_0@ == s,
            None => res is None,
        },
{
    let max_steps = parents.len();
    let mut out: Vec<(u32, u32, u32)> = Vec::new();
    let mut node = meeting;
    let mut steps: usize = 0;
    while node != to
        invariant
            max_steps == parents@.len(),
            steps <= max_steps,
            walk_in_range(parents@, to, node, (max_steps - steps) as nat),
            bw_trace(parents@, to, meeting, max_steps as nat) == match bw_trace(parents@, to, node, (max_steps - steps) as nat) {
                Some(rest) => Some(out@ + rest),
                None => None::<Seq<(u32, u32, u32)>>,
            },
        decreases max_steps - steps,
    {
        if steps >= max_steps {
            return None;
        }
        let (succ, edge) = parents[node as usize];
        if succ == node {
            return None;
        }
        proof {
            let b = (max_steps - steps) as nat;
            match bw_trace(parents@, to, succ, (b - 1) as nat) {
                Some(rest) => {
                    assert(out@ + (seq![(node, succ, edge)] + rest) =~= out@.push((node, succ, edge)) + rest);
                },
                None => {},
            }
        }
        out.push((node, succ, edge));
        node = succ;
        steps = steps + 1;
    }
    proof {
        assert(out@ + Seq::<(u32, u32, u32)>::empty() =~= out@);
    }
    Some(out)
}

/// Every arc of a traced half can be unpacked.
pub open spec fn arcs_unpackable<C: Customized>(c: &C, arcs: Seq<(u32, u32, u32)>) -> bool {
    forall|i: int| 0 <= i < arcs.len() ==> #[trigger] unpack_ok(c, arcs[i].0, arcs[i].1, arcs[i].2)
}

/// The unpacked rank path over the given arcs: each arc's interior nodes,
/// then its head.
pub open spec fn unpacked_ranks<C: Customized>(c: &C, arcs: Seq<(u32, u32, u32)>) -> Seq<u32>
    decreases arcs.len(),
{
    if arcs.len() == 0 {
        Seq::empty()
    } else {
        let last = arcs.last();
        unpacked_ranks(c, arcs.drop_last()) + unpacked_interior(c, last.0, last.1, last.2) + seq![last.1]
    }
}

fn append_unpacked<C: Customized>(customized: &C, arcs: &Vec<(u32, u32, u32)>, path: &mut Vec<u32>)
    requires
        arcs_unpackable(customized, arcs@),
    ensures
        final(path)@ == old(path)@ + unpacked_ranks(customized, arcs@),
{
    let mut i: usize = 0;
    while i < arcs.len()
        invariant
            i <= arcs@.len(),
            arcs_unpackable(customized, arcs@),
            path@ == old(path)@ + unpacked_ranks(customized, arcs@.take(i as int)),
        decreases arcs@.len() - i,
    {
        let (tail, head, edge) = arcs[i];
        proof {
            assert(unpack_ok(customized, arcs@[i as int].0, arcs@[i as int].1, arcs@[i as int].2));
        }
        unpack_edge_recursive(tail, head, edge, customized, path);
        path.push(head);
        proof {
            let t = arcs@.take(i + 1);
            assert(t.drop_last() =~= arcs@.take(i as int));
            assert(t.last() == arcs@[i as int]);
            assert(path@ =~= old(path)@ + unpacked_ranks(customized, t));
        }
        i = i + 1;
    }
    proof {
        assert(arcs@.take(arcs@.len() as int) =~= arcs@);
    }
}

/// The unpacked rank path through a meeting node: `from`, then the forward
/// half, then the backward half; `None` when a half cannot be traced or an
/// arc on it cannot be unpacked.
pub open spec fn rank_path<C: Customized>(
    c: &C,
    fw_parents: Seq<(u32, u32)>,
    bw_parents: Seq<(u32, u32)>,
    from: u32,
    to: u32,
    meeting: u32,
) -> Option<Seq<u32>> {
    match (fw_trace(fw_parents, from, meeting, fw_parents.len()), bw_trace(bw_parents, to, meeting, bw_parents.len())) {
        (Some(fw), Some(bw)) => if arcs_unpackable(c, fw) && arcs_unpackable(c, bw) {
            Some(seq![from] + unpacked_ranks(c, fw) + unpacked_ranks(c, bw))
        } else {
            None
        },
        _ => None,
    }
}

/// Reconstructs and unpacks the path from `from` to `to` through the
/// meeting node `meeting` (all ranks), and returns it as node ids; empty
/// when either half cannot be traced or unpacked.
pub fn reconstruct_path<C: Customized>(
    customized: &C,
    fw_parents: &Vec<(u32, u32)>,
    bw_parents: &Vec<(u32, u32)>,
    from: u32,
    to: u32,
    meeting: u32,
) -> (path: Vec<u32>)
    requires
        walk_in_range(fw_parents@, from, meeting, fw_parents@.len()),
        walk_in_range(bw_parents@, to, meeting, bw_parents@.len()),
        customized.spec_cch().spec_cch_order().wf(),
        rank_path(customized, fw_parents@, bw_parents@, from, to, meeting) matches Some(ranks) ==> forall|i: int|
            0 <= i < ranks.len() ==> (#[trigger] ranks[i] as int) < customized.spec_cch().spec_cch_order().spec_len(),
    ensures
        path@ == route_path(customized, fw_parents@, bw_parents@, from, to, meeting),
{
    let fw = match trace_forward(fw_parents, from, meeting) {
        Some(edges) => edges,
        None => {
            return Vec::new();
        },
    };
    let bw = match trace_backward(bw_parents, to, meeting) {
        Some(edges) => edges,
        None => {
            return Vec::new();
        },
    };
    if !all_unpackable(customized, &fw) || !all_unpackable(customized, &bw) {
        let empty: Vec<u32> = Vec::new();
        proof {
            assert(empty@ =~= route_path(customized, fw_parents@, bw_parents@, from, to, meeting));
        }
        return empty;
    }
    let mut ranks: Vec<u32> = Vec::new();
    ranks.push(from);
    append_unpacked(customized, &fw, &mut ranks);
    append_unpacked(customized, &bw, &mut ranks);
    proof {
        assert(ranks@ =~= seq![from] + unpacked_ranks(customized, fw@) + unpacked_ranks(customized, bw@));
    }
    let order = customized.cch().node_order();
    let ghost rp = ranks@;
    proof {
        assert(rank_path(customized, fw_parents@, bw_parents@, from, to, meeting) == Some(rp));
        assert(*order == customized.spec_cch().spec_cch_order());
        let rs = rank_path(customized, fw_parents@, bw_parents@, from, to, meeting)->Some_0;
        assert(rs == rp);
        assert forall|j: int| 0 <= j < rp.len() implies (#[trigger] rp[j] as int) < order.spec_len() by {
            assert((rs[j] as int) < customized.spec_cch().spec_cch_order().spec_len());
        }
    }
    let mut path: Vec<u32> = Vec::new();
    let mut i: usize = 0;
    while i < ranks.len()
        invariant
            i <= ranks@.len(),
            rp == ranks@,
            order.wf(),
            forall|j: int| 0 <= j < rp.len() ==> (#[trigger] rp[j] as int) < order.spec_len(),
            path@ == rp.take(i as int).map_values(|r: u32| order.nodes()[r as int]),
        decreases ranks@.len() - i,
    {
        let node = order.node(ranks[i]);
        path.push(node);
        proof {
            assert(rp.take(i + 1).map_values(|r: u32| order.nodes()[r as int]) =~= rp.take(i as int).map_values(
                |r: u32| order.nodes()[r as int],
            ).push(order.nodes()[rp[i as int] as int]));
        }
        i = i + 1;
    }
    proof {
        assert(rp.take(rp.len() as int) =~= rp);
    }
    path
}

/// How many times `max_alternatives` a caller asks the multi-route search
/// for, so that the geographic filter after it still leaves enough routes.
pub const GEO_OVER_REQUEST: usize = 3;

/// The number of routes to ask the multi-route search for when
/// `max_alternatives` are wanted: three times as many (saturating), but at
/// least ten more.
pub fn request_count(max_alternatives: usize) -> (n: usize)
    requires
        max_alternatives + 10 <= usize::MAX,
    ensures
        n == if 3 * max_alternatives > usize::MAX {
            usize::MAX as int
        } else if 3 * max_alternatives >= max_alternatives + 10 {
            3 * max_alternatives
        } else {
            max_alternatives + 10
        },
{
    let over = match max_alternatives.checked_mul(GEO_OVER_REQUEST) {
        Some(v) => v,
        None => usize::MAX,
    };
    let floor = max_alternatives + 10;
    if over >= floor {
        over
    } else {
        floor
    }
}

/// The candidates a bidirectional walk from `from` and from `to` meets at,
/// as `(rank, distance)`.
pub open spec fn meetings_of<C: Customized>(c: &C, from: u32, to: u32) -> Seq<(u32, u32)> {
    let fwd = c.spec_forward_graph();
    let bwd = c.spec_backward_graph();
    let tree = c.spec_cch().spec_cch_tree();
    meeting_candidates(
        tree_chain(tree, from as int),
        tree_chain(tree, to as int),
        walk_dist(fwd.0, fwd.1, fwd.2, tree, from),
        walk_dist(bwd.0, bwd.1, bwd.2, tree, to),
    )
}

/// The node path through a meeting node (see `rank_path`), empty when
/// there is none.
pub open spec fn route_path<C: Customized>(
    c: &C,
    fw_parents: Seq<(u32, u32)>,
    bw_parents: Seq<(u32, u32)>,
    from: u32,
    to: u32,
    meeting: u32,
) -> Seq<u32> {
    match rank_path(c, fw_parents, bw_parents, from, to, meeting) {
        Some(ranks) => ranks.map_values(|r: u32| c.spec_cch().spec_cch_order().nodes()[r as int]),
        None => Seq::empty(),
    }
}

proof fn lemma_interior_below<C: Customized>(c: &C, tail: u32, head: u32, edge: u32)
    requires
        unpack_ok(c, tail, head, edge),
    ensures
        forall|i: int|
            0 <= i < unpacked_interior(c, tail, head, edge).len() ==> #[trigger] unpacked_interior(c, tail, head, edge)[i] < tail
                && unpacked_interior(c, tail, head, edge)[i] < head,
    decreases min_rank(tail, head),
{
    match unpacked(unpacking_entry(c, tail, head, edge), c.spec_backward_tail()) {
        Some((down, up, middle)) => {
            lemma_interior_below(c, tail, middle, down);
            lemma_interior_below(c, middle, head, up);
            let a = unpacked_interior(c, tail, middle, down);
            let b = unpacked_interior(c, middle, head, up);
            let all = unpacked_interior(c, tail, head, edge);
            assert(all == a + seq![middle] + b);
            assert forall|i: int| 0 <= i < all.len() implies #[trigger] all[i] < tail && all[i] < head by {
                if i < a.len() {
                    assert(all[i] == a[i]);
                } else if i > a.len() {
                    assert(all[i] == b[i - a.len() - 1]);
                }
            }
        },
        None => {},
    }
}

proof fn lemma_unpacked_ranks_below<C: Customized>(c: &C, arcs: Seq<(u32, u32, u32)>, n: int)
    requires
        arcs_unpackable(c, arcs),
        forall|i: int| 0 <= i < arcs.len() ==> (#[trigger] arcs[i].0 as int) < n && (arcs[i].1 as int) < n,
    ensures
        forall|i: int| 0 <= i < unpacked_ranks(c, arcs).len() ==> (#[trigger] unpacked_ranks(c, arcs)[i] as int) < n,
    decreases arcs.len(),
{
    if arcs.len() > 0 {
        let rest = arcs.drop_last();
        let last = arcs.last();
        assert(arcs_unpackable(c, rest)) by {
            assert forall|i: int| 0 <= i < rest.len() implies #[trigger] unpack_ok(c, rest[i].0, rest[i].1, rest[i].2) by {
                assert(rest[i] == arcs[i]);
                assert(unpack_ok(c, arcs[i].0, arcs[i].1, arcs[i].2));
            }
        }
        assert forall|i: int| 0 <= i < rest.len() implies (#[trigger] rest[i].0 as int) < n && (rest[i].1 as int) < n by {
            assert(rest[i] == arcs[i]);
        }
        lemma_unpacked_ranks_below(c, rest, n);
        assert(unpack_ok(c, arcs[arcs.len() - 1].0, arcs[arcs.len() - 1].1, arcs[arcs.len() - 1].2));
        lemma_interior_below(c, last.0, last.1, last.2);
        let a = unpacked_ranks(c, rest);
        let b = unpacked_interior(c, last.0, last.1, last.2);
        let all = unpacked_ranks(c, arcs);
        assert(all == a + b + seq![last.1]);
        assert((last.1 as int) < n);
        assert forall|i: int| 0 <= i < all.len() implies (#[trigger] all[i] as int) < n by {
            if i < a.len() {
                assert(all[i] == a[i]);
            } else if i < a.len() + b.len() {
                assert(all[i] == b[i - a.len()]);
            }
        }
    }
}

/// A finished forward walk from `s` can be traced back from every node it
/// reached, along arcs of the graph, within `v - s` steps.
proof fn lemma_forward_trace(
    first_out: Seq<u32>,
    head: Seq<u32>,
    weight: Seq<u32>,
    chain: Seq<u32>,
    s: u32,
    dist: Seq<u32>,
    parents: Seq<(u32, u32)>,
    v: u32,
    budget: nat,
)
    requires
        upward_weighted(first_out, head, weight, first_out.len() - 1),
        chain_shape(chain, s as int, first_out.len() - 1),
        walk_state(first_out, head, weight, chain, chain.len() as int, s, dist, parents),
        (v as int) < first_out.len() - 1,
        dist[v as int] < INFINITY,
        budget >= v - s,
    ensures
        s <= v,
        walk_in_range(parents, s, v, budget),
        fw_trace(parents, s, v, budget) is Some,
        forall|i: int|
            0 <= i < fw_trace(parents, s, v, budget)->Some_0.len() ==> {
                let a = #[trigger] fw_trace(parents, s, v, budget)->Some_0[i];
                &&& arc_of_node(first_out, a.0 as int, a.2 as int)
                &&& head[a.2 as int] == a.1
                &&& (a.1 as int) < first_out.len() - 1
            },
    decreases v,
{
    if v != s {
        let n = first_out.len() - 1;
        assert(parent_ok(first_out, head, weight, chain.take(chain.len() as int), dist, parents, v as int));
        let (p, e) = parents[v as int];
        assert(arc_of_node(first_out, p as int, e as int));
        let j = choose|j: int| 0 <= j < chain.len() && chain.take(chain.len() as int)[j] == p;
        assert(chain[j] == p);
        assert(s <= p) by {
            if j > 0 {
                assert(chain[0] < chain[j]);
            }
        }
        lemma_forward_trace(first_out, head, weight, chain, s, dist, parents, p, (budget - 1) as nat);
        let rest = fw_trace(parents, s, p, (budget - 1) as nat)->Some_0;
        let all = fw_trace(parents, s, v, budget)->Some_0;
        assert(all == rest.push((p, v, e)));
        assert forall|i: int| 0 <= i < all.len() implies {
            let a = #[trigger] all[i];
            &&& arc_of_node(first_out, a.0 as int, a.2 as int)
            &&& head[a.2 as int] == a.1
            &&& (a.1 as int) < first_out.len() - 1
        } by {
            if i < rest.len() {
                assert(all[i] == rest[i]);
            }
        }
    }
}

/// A finished backward walk from `t` can be traced from every node it
/// reached on to `t`, along arcs of the graph, within `v - t` steps.
proof fn lemma_backward_trace(
    first_out: Seq<u32>,
    head: Seq<u32>,
    weight: Seq<u32>,
    chain: Seq<u32>,
    t: u32,
    dist: Seq<u32>,
    parents: Seq<(u32, u32)>,
    v: u32,
    budget: nat,
)
    requires
        upward_weighted(first_out, head, weight, first_out.len() - 1),
        chain_shape(chain, t as int, first_out.len() - 1),
        walk_state(first_out, head, weight, chain, chain.len() as int, t, dist, parents),
        (v as int) < first_out.len() - 1,
        dist[v as int] < INFINITY,
        budget >= v - t,
    ensures
        t <= v,
        walk_in_range(parents, t, v, budget),
        bw_trace(parents, t, v, budget) is Some,
        forall|i: int|
            0 <= i < bw_trace(parents, t, v, budget)->Some_0.len() ==> {
                let a = #[trigger] bw_trace(parents, t, v, budget)->Some_0[i];
                &&& arc_of_node(first_out, a.1 as int, a.2 as int)
                &&& head[a.2 as int] == a.0
                &&& (a.0 as int) < first_out.len() - 1
            },
    decreases v,
{
    if v != t {
        assert(parent_ok(first_out, head, weight, chain.take(chain.len() as int), dist, parents, v as int));
        let (p, e) = parents[v as int];
        assert(arc_of_node(first_out, p as int, e as int));
        let j = choose|j: int| 0 <= j < chain.len() && chain.take(chain.len() as int)[j] == p;
        assert(chain[j] == p);
        assert(t <= p) by {
            if j > 0 {
                assert(chain[0] < chain[j]);
            }
        }
        lemma_backward_trace(first_out, head, weight, chain, t, dist, parents, p, (budget - 1) as nat);
        let rest = bw_trace(parents, t, p, (budget - 1) as nat)->Some_0;
        let all = bw_trace(parents, t, v, budget)->Some_0;
        assert(all == seq![(v, p, e)] + rest);
        assert forall|i: int| 0 <= i < all.len() implies {
            let a = #[trigger] all[i];
            &&& arc_of_node(first_out, a.1 as int, a.2 as int)
            &&& head[a.2 as int] == a.0
            &&& (a.0 as int) < first_out.len() - 1
        } by {
            if i > 0 {
                assert(all[i] == rest[i - 1]);
            }
        }
    }
}

proof fn lemma_arcs_weight_prepend(weight: Seq<u32>, a: (u32, u32, u32), rest: Seq<(u32, u32, u32)>)
    ensures
        arcs_weight(weight, seq![a] + rest) == weight[a.2 as int] + arcs_weight(weight, rest),
    decreases rest.len(),
{
    if rest.len() > 0 {
        lemma_arcs_weight_prepend(weight, a, rest.drop_last());
        assert((seq![a] + rest).drop_last() =~= seq![a] + rest.drop_last());
        assert((seq![a] + rest).last() == rest.last());
        assert(arcs_weight(weight, rest) == arcs_weight(weight, rest.drop_last()) + weight[rest.last().2 as int]);
    } else {
        assert((seq![a] + rest).drop_last() =~= Seq::<(u32, u32, u32)>::empty());
        assert((seq![a] + rest).last() == a);
        assert(arcs_weight(weight, Seq::<(u32, u32, u32)>::empty()) == 0);
        assert(rest =~= Seq::<(u32, u32, u32)>::empty());
    }
}

/// The distance a finished forward walk gives a node it reached is the
/// weight of the path its parents trace back to the source.
pub proof fn lemma_forward_trace_weight(
    first_out: Seq<u32>,
    head: Seq<u32>,
    weight: Seq<u32>,
    chain: Seq<u32>,
    s: u32,
    dist: Seq<u32>,
    parents: Seq<(u32, u32)>,
    v: u32,
)
    requires
        upward_weighted(first_out, head, weight, first_out.len() - 1),
        chain_shape(chain, s as int, first_out.len() - 1),
        walk_state(first_out, head, weight, chain, chain.len() as int, s, dist, parents),
        (v as int) < first_out.len() - 1,
        dist[v as int] < INFINITY,
    ensures
        fw_trace(parents, s, v, parents.len()) matches Some(arcs) && arcs_weight(weight, arcs) == dist[v as int],
{
    lemma_forward_trace(first_out, head, weight, chain, s, dist, parents, v, parents.len());
    lemma_forward_trace_weight_at(first_out, head, weight, chain, s, dist, parents, v, parents.len());
}

proof fn lemma_forward_trace_weight_at(
    first_out: Seq<u32>,
    head: Seq<u32>,
    weight: Seq<u32>,
    chain: Seq<u32>,
    s: u32,
    dist: Seq<u32>,
    parents: Seq<(u32, u32)>,
    v: u32,
    budget: nat,
)
    requires
        upward_weighted(first_out, head, weight, first_out.len() - 1),
        chain_shape(chain, s as int, first_out.len() - 1),
        walk_state(first_out, head, weight, chain, chain.len() as int, s, dist, parents),
        (v as int) < first_out.len() - 1,
        dist[v as int] < INFINITY,
        budget >= v - s,
    ensures
        fw_trace(parents, s, v, budget) matches Some(arcs) && arcs_weight(weight, arcs) == dist[v as int],
    decreases v,
{
    lemma_forward_trace(first_out, head, weight, chain, s, dist, parents, v, budget);
    if v != s {
        assert(parent_ok(first_out, head, weight, chain.take(chain.len() as int), dist, parents, v as int));
        let (p, e) = parents[v as int];
        assert(arc_of_node(first_out, p as int, e as int));
        lemma_forward_trace(first_out, head, weight, chain, s, dist, parents, p, (budget - 1) as nat);
        lemma_forward_trace_weight_at(first_out, head, weight, chain, s, dist, parents, p, (budget - 1) as nat);
        let rest = fw_trace(parents, s, p, (budget - 1) as nat)->Some_0;
        assert(fw_trace(parents, s, v, budget)->Some_0 == rest.push((p, v, e)));
        assert(rest.push((p, v, e)).drop_last() =~= rest);
    } else {
        assert(dist[s as int] == 0);
    }
}

/// The distance a finished backward walk gives a node it reached is the
/// weight of the path its parents trace on to the target.
pub proof fn lemma_backward_trace_weight(
    first_out: Seq<u32>,
    head: Seq<u32>,
    weight: Seq<u32>,
    chain: Seq<u32>,
    t: u32,
    dist: Seq<u32>,
    parents: Seq<(u32, u32)>,
    v: u32,
)
    requires
        upward_weighted(first_out, head, weight, first_out.len() - 1),
        chain_shape(chain, t as int, first_out.len() - 1),
        walk_state(first_out, head, weight, chain, chain.len() as int, t, dist, parents),
        (v as int) < first_out.len() - 1,
        dist[v as int] < INFINITY,
    ensures
        bw_trace(parents, t, v, parents.len()) matches Some(arcs) && arcs_weight(weight, arcs) == dist[v as int],
{
    lemma_backward_trace(first_out, head, weight, chain, t, dist, parents, v, parents.len());
    lemma_backward_trace_weight_at(first_out, head, weight, chain, t, dist, parents, v, parents.len());
}

proof fn lemma_backward_trace_weight_at(
    first_out: Seq<u32>,
    head: Seq<u32>,
    weight: Seq<u32>,
    chain: Seq<u32>,
    t: u32,
    dist: Seq<u32>,
    parents: Seq<(u32, u32)>,
    v: u32,
    budget: nat,
)
    requires
        upward_weighted(first_out, head, weight, first_out.len() - 1),
        chain_shape(chain, t as int, first_out.len() - 1),
        walk_state(first_out, head, weight, chain, chain.len() as int, t, dist, parents),
        (v as int) < first_out.len() - 1,
        dist[v as int] < INFINITY,
        budget >= v - t,
    ensures
        bw_trace(parents, t, v, budget) matches Some(arcs) && arcs_weight(weight, arcs) == dist[v as int],
    decreases v,
{
    lemma_backward_trace(first_out, head, weight, chain, t, dist, parents, v, budget);
    if v != t {
        assert(parent_ok(first_out, head, weight, chain.take(chain.len() as int), dist, parents, v as int));
        let (p, e) = parents[v as int];
        assert(arc_of_node(first_out, p as int, e as int));
        lemma_backward_trace(first_out, head, weight, chain, t, dist, parents, p, (budget - 1) as nat);
        lemma_backward_trace_weight_at(first_out, head, weight, chain, t, dist, parents, p, (budget - 1) as nat);
        let rest = bw_trace(parents, t, p, (budget - 1) as nat)->Some_0;
        assert(bw_trace(parents, t, v, budget)->Some_0 == seq![(v, p, e)] + rest);
        lemma_arcs_weight_prepend(weight, (v, p, e), rest);
    } else {
        assert(dist[t as int] == 0);
    }
}

/// The shortest of the candidates' distances; `INFINITY` when none is
/// shorter.
pub open spec fn min_distance(cands: Seq<(u32, u32)>) -> u32
    decreases cands.len(),
{
    if cands.len() == 0 {
        INFINITY
    } else {
        let m = min_distance(cands.drop_last());
        if cands.last().1 < m {
            cands.last().1
        } else {
            m
        }
    }
}

/// The shortest distance between two ranks found by a bidirectional
/// elimination tree walk.
pub open spec fn point_distance<C: Customized>(c: &C, from: u32, to: u32) -> u32 {
    if from == to {
        0
    } else {
        min_distance(meetings_of(c, from, to))
    }
}

/// The first position of `x` on `s`.
pub open spec fn first_position(s: Seq<u32>, x: u32) -> Option<usize>
    decreases s.len(),
{
    if s.len() == 0 {
        None
    } else {
        match first_position(s.drop_last(), x) {
            Some(p) => Some(p),
            None => if s.last() == x {
                Some((s.len() - 1) as usize)
            } else {
                None
            },
        }
    }
}

/// The arc costs along `path` as `edge_cost` gives them.
pub open spec fn costs_along<E: Fn(u32, u32) -> u32>(edge_cost: &E, path: Seq<u32>, costs: Seq<u32>) -> bool {
    &&& costs.len() + 1 == path.len()
    &&& forall|i: int| 0 <= i < costs.len() ==> call_ensures(*edge_cost, (path[i], path[i + 1]), #[trigger] costs[i])
}

/// The T-test's verdict on `path` through the rank `meeting`, with the arc
/// costs `costs`: the subpath around the via node is at most 10% longer
/// than the shortest distance between its ends.
pub open spec fn locally_optimal<C: Customized>(c: &C, path: Seq<u32>, meeting: u32, best_distance: u32, costs: Seq<u32>) -> bool {
    let order = c.spec_cch().spec_cch_order();
    let via = order.nodes()[meeting as int];
    match local_step(path.len() as int, first_position(path, via), best_distance, costs) {
        LocalOptStep::Accept => true,
        LocalOptStep::Query { v_prime_pos, v_double_pos, subpath_cost } => admissible(
            subpath_cost,
            point_distance(c, order.rank_seq()[path[v_prime_pos as int] as int], order.rank_seq()[path[v_double_pos as int] as int]),
        ),
    }
}

/// `ok` is a verdict the T-test can give: paths of fewer than three nodes
/// and paths that miss the via node pass; otherwise it is `locally_optimal`
/// over arc costs that `edge_cost` gives.
pub open spec fn optimality_answer<C: Customized, E: Fn(u32, u32) -> u32>(
    c: &C,
    edge_cost: &E,
    path: Seq<u32>,
    meeting: u32,
    best_distance: u32,
    ok: bool,
) -> bool {
    if path.len() < 3 || first_position(path, c.spec_cch().spec_cch_order().nodes()[meeting as int]) is None {
        ok
    } else {
        exists|costs: Seq<u32>| #[trigger] costs_along(edge_cost, path, costs) && ok == locally_optimal(c, path, meeting, best_distance, costs)
    }
}

/// `ok` is an answer `within_stretch` can give for the main path `main`
/// and the candidate `path`.
pub open spec fn stretch_answer<G: Fn(&Vec<u32>, &Vec<u32>) -> bool>(within_stretch: &G, main: Seq<u32>, path: Seq<u32>, ok: bool) -> bool {
    exists|m: Vec<u32>, p: Vec<u32>| m@ == main && p@ == path && #[trigger] call_ensures(*within_stretch, (&m, &p), ok)
}

/// The candidate path shares more than 80% of its arcs with one of the
/// routes.
pub open spec fn similar_to_any(path: Seq<u32>, routes: Seq<(u32, Seq<u32>)>) -> bool {
    exists|j: int|
        0 <= j < routes.len() && sharing_exceeds(
            all_path_arcs(path).intersect(all_path_arcs(#[trigger] routes[j].1)).len() as int,
            all_path_arcs(path).len() as int,
        )
}

/// The routes accepted before candidate `k` (`k >= 1`): the main route
/// through the first candidate, then, in order, every later candidate
/// whose path is non-empty, repeats no node, passes the stretch test
/// (`stretch`), is not too similar to a route already accepted and passes
/// the T-test (`optimal`), while fewer than `max` routes are accepted.
#[verifier::opaque]
pub open spec fn accepted_routes<C: Customized>(
    c: &C,
    fw_parents: Seq<(u32, u32)>,
    bw_parents: Seq<(u32, u32)>,
    from: u32,
    to: u32,
    cands: Seq<(u32, u32)>,
    max: int,
    stretch: Seq<bool>,
    optimal: Seq<bool>,
    k: int,
) -> Seq<(u32, Seq<u32>)>
    decreases k,
{
    if k <= 1 {
        seq![(cands[0].1, route_path(c, fw_parents, bw_parents, from, to, cands[0].0))]
    } else {
        let acc = accepted_routes(c, fw_parents, bw_parents, from, to, cands, max, stretch, optimal, k - 1);
        let (meeting, dist) = cands[k - 1];
        let path = route_path(c, fw_parents, bw_parents, from, to, meeting);
        if acc.len() < max && path.len() > 0 && !repeats(path) && stretch[k - 1] && !similar_to_any(path, acc)
            && optimal[k - 1] {
            acc.push((dist, path))
        } else {
            acc
        }
    }
}

/// The answers recorded for candidate `k` are answers the two tests can
/// give, wherever the candidate reaches them.
#[verifier::opaque]
pub open spec fn answer_fits<C: Customized, G: Fn(&Vec<u32>, &Vec<u32>) -> bool, E: Fn(u32, u32) -> u32>(
    c: &C,
    within_stretch: &G,
    edge_cost: &E,
    fw_parents: Seq<(u32, u32)>,
    bw_parents: Seq<(u32, u32)>,
    from: u32,
    to: u32,
    cands: Seq<(u32, u32)>,
    max: int,
    stretch: Seq<bool>,
    optimal: Seq<bool>,
    k: int,
) -> bool {
    let acc = accepted_routes(c, fw_parents, bw_parents, from, to, cands, max, stretch, optimal, k);
    let main = route_path(c, fw_parents, bw_parents, from, to, cands[0].0);
    let path = route_path(c, fw_parents, bw_parents, from, to, cands[k].0);
    let tested = acc.len() < max && path.len() > 0 && !repeats(path);
    &&& tested ==> stretch_answer(within_stretch, main, path, stretch[k])
    &&& tested && stretch[k] && !similar_to_any(path, acc) ==> optimality_answer(c, edge_cost, path, cands[k].0, cands[0].1, optimal[k])
}

/// What a query with the candidates `cands` (the meeting nodes, shortest
/// first) and the recorded test answers returns: nothing without
/// candidates or without a main path, else the accepted routes.
pub open spec fn query_outcome<C: Customized, G: Fn(&Vec<u32>, &Vec<u32>) -> bool, E: Fn(u32, u32) -> u32>(
    c: &C,
    within_stretch: &G,
    edge_cost: &E,
    fw_parents: Seq<(u32, u32)>,
    bw_parents: Seq<(u32, u32)>,
    from: u32,
    to: u32,
    max: int,
    cands: Seq<(u32, u32)>,
    stretch: Seq<bool>,
    optimal: Seq<bool>,
    routes: Seq<(u32, Seq<u32>)>,
) -> bool {
    &&& cands.to_multiset() == meetings_of(c, from, to).to_multiset()
    &&& sorted_by_distance(cands)
    &&& cands.len() == 0 ==> routes.len() == 0
    &&& cands.len() > 0 && route_path(c, fw_parents, bw_parents, from, to, cands[0].0).len() == 0 ==> routes.len() == 0
    &&& cands.len() > 0 && route_path(c, fw_parents, bw_parents, from, to, cands[0].0).len() > 0 ==> {
        &&& stretch.len() == cands.len()
        &&& optimal.len() == cands.len()
        &&& forall|k: int|
            1 <= k < cands.len() ==> #[trigger] answer_fits(
                c,
                within_stretch,
                edge_cost,
                fw_parents,
                bw_parents,
                from,
                to,
                cands,
                max,
                stretch,
                optimal,
                k,
            )
        &&& routes == accepted_routes(c, fw_parents, bw_parents, from, to, cands, max, stretch, optimal, cands.len() as int)
    }
}

/// The accepted routes come in order of distance: the first is the
/// shortest candidate's, and no route is shorter than one before it.
pub proof fn lemma_accepted_by_distance<C: Customized>(
    c: &C,
    fw_parents: Seq<(u32, u32)>,
    bw_parents: Seq<(u32, u32)>,
    from: u32,
    to: u32,
    cands: Seq<(u32, u32)>,
    max: int,
    stretch: Seq<bool>,
    optimal: Seq<bool>,
    k: int,
)
    requires
        sorted_by_distance(cands),
        1 <= k <= cands.len(),
    ensures
        accepted_routes(c, fw_parents, bw_parents, from, to, cands, max, stretch, optimal, k).len() >= 1,
        accepted_routes(c, fw_parents, bw_parents, from, to, cands, max, stretch, optimal, k)[0].0 == cands[0].1,
        forall|i: int, j: int|
            0 <= i <= j < accepted_routes(c, fw_parents, bw_parents, from, to, cands, max, stretch, optimal, k).len() ==> #[trigger] accepted_routes(
                c,
                fw_parents,
                bw_parents,
                from,
                to,
                cands,
                max,
                stretch,
                optimal,
                k,
            )[i].0 <= #[trigger] accepted_routes(c, fw_parents, bw_parents, from, to, cands, max, stretch, optimal, k)[j].0,
        forall|i: int|
            0 <= i < accepted_routes(c, fw_parents, bw_parents, from, to, cands, max, stretch, optimal, k).len() ==> #[trigger] accepted_routes(
                c,
                fw_parents,
                bw_parents,
                from,
                to,
                cands,
                max,
                stretch,
                optimal,
                k,
            )[i].0 <= cands[k - 1].1,
    decreases k,
{
    reveal(accepted_routes);
    let r = accepted_routes(c, fw_parents, bw_parents, from, to, cands, max, stretch, optimal, k);
    if k > 1 {
        lemma_accepted_by_distance(c, fw_parents, bw_parents, from, to, cands, max, stretch, optimal, k - 1);
        let acc = accepted_routes(c, fw_parents, bw_parents, from, to, cands, max, stretch, optimal, k - 1);
        assert(cands[k - 2].1 <= cands[k - 1].1);
        if r.len() > acc.len() {
            assert(r == acc.push((cands[k - 1].1, route_path(c, fw_parents, bw_parents, from, to, cands[k - 1].0))));
            assert forall|i: int, j: int| 0 <= i <= j < r.len() implies #[trigger] r[i].0 <= #[trigger] r[j].0 by {
                if j < acc.len() {
                    assert(r[i] == acc[i] && r[j] == acc[j]);
                } else if i < acc.len() {
                    assert(r[i] == acc[i]);
                }
            }
            assert forall|i: int| 0 <= i < r.len() implies #[trigger] r[i].0 <= cands[k - 1].1 by {
                if i < acc.len() {
                    assert(r[i] == acc[i]);
                }
            }
        } else {
            assert(r == acc);
        }
    }
}

/// Every accepted alternative (every route after the main one) visits
/// each node at most once.
pub proof fn lemma_alternatives_loop_free<C: Customized>(
    c: &C,
    fw_parents: Seq<(u32, u32)>,
    bw_parents: Seq<(u32, u32)>,
    from: u32,
    to: u32,
    cands: Seq<(u32, u32)>,
    max: int,
    stretch: Seq<bool>,
    optimal: Seq<bool>,
    k: int,
)
    requires
        1 <= k <= cands.len(),
    ensures
        forall|i: int, a: int, b: int|
            1 <= i < accepted_routes(c, fw_parents, bw_parents, from, to, cands, max, stretch, optimal, k).len() && 0 <= a < b
                < accepted_routes(c, fw_parents, bw_parents, from, to, cands, max, stretch, optimal, k)[i].1.len() ==> #[trigger] accepted_routes(
                c,
                fw_parents,
                bw_parents,
                from,
                to,
                cands,
                max,
                stretch,
                optimal,
                k,
            )[i].1[a] != #[trigger] accepted_routes(c, fw_parents, bw_parents, from, to, cands, max, stretch, optimal, k)[i].1[b],
    decreases k,
{
    reveal(accepted_routes);
    let r = accepted_routes(c, fw_parents, bw_parents, from, to, cands, max, stretch, optimal, k);
    if k > 1 {
        lemma_alternatives_loop_free(c, fw_parents, bw_parents, from, to, cands, max, stretch, optimal, k - 1);
        let acc = accepted_routes(c, fw_parents, bw_parents, from, to, cands, max, stretch, optimal, k - 1);
        let path = route_path(c, fw_parents, bw_parents, from, to, cands[k - 1].0);
        if r.len() > acc.len() {
            assert(r == acc.push((cands[k - 1].1, path)));
            assert(!repeats(path));
            lemma_repeats_iff_some_node_twice(path);
            assert forall|i: int, a: int, b: int| 1 <= i < r.len() && 0 <= a < b < r[i].1.len() implies #[trigger] r[i].1[a]
                != #[trigger] r[i].1[b] by {
                if i < acc.len() {
                    assert(r[i] == acc[i]);
                } else {
                    assert(r[i].1 == path);
                }
            }
        } else {
            assert(r == acc);
        }
    } else {
        assert(r.len() == 1);
    }
}

proof fn lemma_accepted_full<C: Customized>(
    c: &C,
    fw_parents: Seq<(u32, u32)>,
    bw_parents: Seq<(u32, u32)>,
    from: u32,
    to: u32,
    cands: Seq<(u32, u32)>,
    max: int,
    stretch: Seq<bool>,
    optimal: Seq<bool>,
    k: int,
    j: int,
)
    requires
        1 <= k <= j,
        accepted_routes(c, fw_parents, bw_parents, from, to, cands, max, stretch, optimal, k).len() >= max,
    ensures
        accepted_routes(c, fw_parents, bw_parents, from, to, cands, max, stretch, optimal, j) == accepted_routes(
            c,
            fw_parents,
            bw_parents,
            from,
            to,
            cands,
            max,
            stretch,
            optimal,
            k,
        ),
    decreases j,
{
    reveal(accepted_routes);
    if j > k {
        lemma_accepted_full(c, fw_parents, bw_parents, from, to, cands, max, stretch, optimal, k, j - 1);
    }
}

/// The routes accepted before candidate `k` depend on the answers for the
/// candidates before `k` only.
proof fn lemma_accepted_prefix<C: Customized>(
    c: &C,
    fw_parents: Seq<(u32, u32)>,
    bw_parents: Seq<(u32, u32)>,
    from: u32,
    to: u32,
    cands: Seq<(u32, u32)>,
    max: int,
    s1: Seq<bool>,
    o1: Seq<bool>,
    s2: Seq<bool>,
    o2: Seq<bool>,
    k: int,
)
    requires
        forall|i: int| 0 <= i < k ==> s1[i] == s2[i] && o1[i] == o2[i],
    ensures
        accepted_routes(c, fw_parents, bw_parents, from, to, cands, max, s1, o1, k) == accepted_routes(
            c,
            fw_parents,
            bw_parents,
            from,
            to,
            cands,
            max,
            s2,
            o2,
            k,
        ),
    decreases k,
{
    reveal(accepted_routes);
    if k > 1 {
        lemma_accepted_prefix(c, fw_parents, bw_parents, from, to, cands, max, s1, o1, s2, o2, k - 1);
    }
}

/// Recording the answers for candidate `k` keeps the answers recorded for
/// the candidates before it fitting.
proof fn lemma_answers_kept<C: Customized, G: Fn(&Vec<u32>, &Vec<u32>) -> bool, E: Fn(u32, u32) -> u32>(
    c: &C,
    within_stretch: &G,
    edge_cost: &E,
    fw_parents: Seq<(u32, u32)>,
    bw_parents: Seq<(u32, u32)>,
    from: u32,
    to: u32,
    cands: Seq<(u32, u32)>,
    max: int,
    s1: Seq<bool>,
    o1: Seq<bool>,
    s2: Seq<bool>,
    o2: Seq<bool>,
    k: int,
)
    requires
        forall|i: int| 0 <= i < k ==> s1[i] == s2[i] && o1[i] == o2[i],
        forall|q: int|
            1 <= q < k ==> #[trigger] answer_fits(c, within_stretch, edge_cost, fw_parents, bw_parents, from, to, cands, max, s1, o1, q),
    ensures
        forall|q: int|
            1 <= q < k ==> #[trigger] answer_fits(c, within_stretch, edge_cost, fw_parents, bw_parents, from, to, cands, max, s2, o2, q),
        accepted_routes(c, fw_parents, bw_parents, from, to, cands, max, s1, o1, k) == accepted_routes(
            c,
            fw_parents,
            bw_parents,
            from,
            to,
            cands,
            max,
            s2,
            o2,
            k,
        ),
{
    reveal(answer_fits);
    lemma_accepted_prefix(c, fw_parents, bw_parents, from, to, cands, max, s1, o1, s2, o2, k);
    assert forall|q: int| 1 <= q < k implies #[trigger] answer_fits(
        c,
        within_stretch,
        edge_cost,
        fw_parents,
        bw_parents,
        from,
        to,
        cands,
        max,
        s2,
        o2,
        q,
    ) by {
        lemma_accepted_prefix(c, fw_parents, bw_parents, from, to, cands, max, s1, o1, s2, o2, q);
        assert(answer_fits(c, within_stretch, edge_cost, fw_parents, bw_parents, from, to, cands, max, s1, o1, q));
    }
}

proof fn lemma_accepted_base<C: Customized>(
    c: &C,
    fw_parents: Seq<(u32, u32)>,
    bw_parents: Seq<(u32, u32)>,
    from: u32,
    to: u32,
    cands: Seq<(u32, u32)>,
    max: int,
    stretch: Seq<bool>,
    optimal: Seq<bool>,
)
    ensures
        accepted_routes(c, fw_parents, bw_parents, from, to, cands, max, stretch, optimal, 1) == seq![
            (cands[0].1, route_path(c, fw_parents, bw_parents, from, to, cands[0].0)),
        ],
{
    reveal(accepted_routes);
}

proof fn lemma_accepted_step<C: Customized>(
    c: &C,
    fw_parents: Seq<(u32, u32)>,
    bw_parents: Seq<(u32, u32)>,
    from: u32,
    to: u32,
    cands: Seq<(u32, u32)>,
    max: int,
    stretch: Seq<bool>,
    optimal: Seq<bool>,
    k: int,
)
    requires
        k >= 1,
    ensures
        ({
            let acc = accepted_routes(c, fw_parents, bw_parents, from, to, cands, max, stretch, optimal, k);
            let path = route_path(c, fw_parents, bw_parents, from, to, cands[k].0);
            accepted_routes(c, fw_parents, bw_parents, from, to, cands, max, stretch, optimal, k + 1) == if acc.len() < max
                && path.len() > 0 && !repeats(path) && stretch[k] && !similar_to_any(path, acc) && optimal[k] {
                acc.push((cands[k].1, path))
            } else {
                acc
            }
        }),
{
    reveal(accepted_routes);
}

proof fn lemma_answer_fits_intro<C: Customized, G: Fn(&Vec<u32>, &Vec<u32>) -> bool, E: Fn(u32, u32) -> u32>(
    c: &C,
    within_stretch: &G,
    edge_cost: &E,
    fw_parents: Seq<(u32, u32)>,
    bw_parents: Seq<(u32, u32)>,
    from: u32,
    to: u32,
    cands: Seq<(u32, u32)>,
    max: int,
    stretch: Seq<bool>,
    optimal: Seq<bool>,
    k: int,
)
    requires
        ({
            let acc = accepted_routes(c, fw_parents, bw_parents, from, to, cands, max, stretch, optimal, k);
            let main = route_path(c, fw_parents, bw_parents, from, to, cands[0].0);
            let path = route_path(c, fw_parents, bw_parents, from, to, cands[k].0);
            let tested = acc.len() < max && path.len() > 0 && !repeats(path);
            &&& tested ==> stretch_answer(within_stretch, main, path, stretch[k])
            &&& tested && stretch[k] && !similar_to_any(path, acc) ==> optimality_answer(c, edge_cost, path, cands[k].0, cands[0].1, optimal[k])
        }),
    ensures
        answer_fits(c, within_stretch, edge_cost, fw_parents, bw_parents, from, to, cands, max, stretch, optimal, k),
{
    reveal(answer_fits);
}

proof fn lemma_answer_fits_full<C: Customized, G: Fn(&Vec<u32>, &Vec<u32>) -> bool, E: Fn(u32, u32) -> u32>(
    c: &C,
    within_stretch: &G,
    edge_cost: &E,
    fw_parents: Seq<(u32, u32)>,
    bw_parents: Seq<(u32, u32)>,
    from: u32,
    to: u32,
    cands: Seq<(u32, u32)>,
    max: int,
    stretch: Seq<bool>,
    optimal: Seq<bool>,
    k: int,
)
    requires
        accepted_routes(c, fw_parents, bw_parents, from, to, cands, max, stretch, optimal, k).len() >= max,
    ensures
        answer_fits(c, within_stretch, edge_cost, fw_parents, bw_parents, from, to, cands, max, stretch, optimal, k),
{
    reveal(answer_fits);
}

/// Every route the multi-route search accepts after the main one has a
/// path, repeats no node and shares at most 80% of its arcs with each route
/// accepted before it; no more routes than asked for are accepted (but
/// always the main one), the main route comes first, and the routes come
/// shortest first.
pub proof fn lemma_accepted_routes_admissible<C: Customized>(
    c: &C,
    fw_parents: Seq<(u32, u32)>,
    bw_parents: Seq<(u32, u32)>,
    from: u32,
    to: u32,
    cands: Seq<(u32, u32)>,
    max: int,
    stretch: Seq<bool>,
    optimal: Seq<bool>,
    k: int,
)
    requires
        1 <= k <= cands.len(),
        sorted_by_distance(cands),
        max >= 1,
    ensures
        ({
            let acc = accepted_routes(c, fw_parents, bw_parents, from, to, cands, max, stretch, optimal, k);
            &&& 1 <= acc.len() <= max
            &&& acc[0] == (cands[0].1, route_path(c, fw_parents, bw_parents, from, to, cands[0].0))
            &&& forall|i: int|
                1 <= i < acc.len() ==> {
                    &&& (#[trigger] acc[i]).1.len() > 0
                    &&& !repeats(acc[i].1)
                    &&& !similar_to_any(acc[i].1, acc.take(i))
                }
            &&& forall|i: int, j: int| 0 <= i <= j < acc.len() ==> acc[i].0 <= acc[j].0
            &&& forall|i: int| 0 <= i < acc.len() ==> acc[i].0 <= cands[k - 1].1
        }),
    decreases k,
{
    reveal(accepted_routes);
    if k > 1 {
        lemma_accepted_routes_admissible(c, fw_parents, bw_parents, from, to, cands, max, stretch, optimal, k - 1);
        let prev = accepted_routes(c, fw_parents, bw_parents, from, to, cands, max, stretch, optimal, k - 1);
        let acc = accepted_routes(c, fw_parents, bw_parents, from, to, cands, max, stretch, optimal, k);
        assert(cands[k - 2].1 <= cands[k - 1].1);
        if acc != prev {
            assert(acc == prev.push((cands[k - 1].1, route_path(c, fw_parents, bw_parents, from, to, cands[k - 1].0))));
            assert(acc.take(prev.len() as int) =~= prev);
            assert forall|i: int| 1 <= i < acc.len() implies {
                &&& (#[trigger] acc[i]).1.len() > 0
                &&& !repeats(acc[i].1)
                &&& !similar_to_any(acc[i].1, acc.take(i))
            } by {
                if i < prev.len() {
                    assert(acc[i] == prev[i]);
                    assert(acc.take(i) =~= prev.take(i));
                }
            }
        }
    }
}

/// Routes as distance and node path.
pub open spec fn routes_view(routes: Seq<(u32, Vec<u32>)>) -> Seq<(u32, Seq<u32>)> {
    routes.map_values(|r: (u32, Vec<u32>)| (r.0, r.1@))
}

proof fn lemma_min_distance_le(cands: Seq<(u32, u32)>, i: int)
    requires
        0 <= i < cands.len(),
    ensures
        min_distance(cands) <= cands[i].1,
    decreases cands.len(),
{
    if i < cands.len() - 1 {
        lemma_min_distance_le(cands.drop_last(), i);
        assert(cands.drop_last()[i] == cands[i]);
    }
}

proof fn lemma_meeting_candidate_present(fw_chain: Seq<u32>, bw_chain: Seq<u32>, fw: Seq<u32>, bw: Seq<u32>, v: u32)
    requires
        fw_chain.contains(v),
        bw_chain.contains(v),
        fw[v as int] < INFINITY,
        bw[v as int] < INFINITY,
    ensures
        meeting_candidates(fw_chain, bw_chain, fw, bw).contains((v, (fw[v as int] + bw[v as int]) as u32)),
    decreases fw_chain.len(),
{
    let rest = fw_chain.drop_last();
    let r = meeting_candidates(rest, bw_chain, fw, bw);
    let all = meeting_candidates(fw_chain, bw_chain, fw, bw);
    if fw_chain.last() == v {
        assert(all == r.push((v, (fw[v as int] + bw[v as int]) as u32)));
        assert(all[r.len() as int] == (v, (fw[v as int] + bw[v as int]) as u32));
    } else {
        let k = choose|k: int| 0 <= k < fw_chain.len() && fw_chain[k] == v;
        assert(k < fw_chain.len() - 1);
        assert(rest[k] == v);
        lemma_meeting_candidate_present(rest, bw_chain, fw, bw, v);
        let j = choose|j: int| 0 <= j < r.len() && r[j] == (v, (fw[v as int] + bw[v as int]) as u32);
        assert(all[j] == r[j]);
    }
}

/// The best meeting distance of a bidirectional walk is at most the weight
/// of every path that climbs from `s` to some node `m` in the upward graph
/// and comes down from `m` to `t` (a climb from `t` to `m` in the downward
/// graph), when both graphs are chordal over the elimination tree.
pub proof fn lemma_meeting_distance_optimal(
    fw_first_out: Seq<u32>,
    fw_head: Seq<u32>,
    fw_weight: Seq<u32>,
    bw_first_out: Seq<u32>,
    bw_head: Seq<u32>,
    bw_weight: Seq<u32>,
    tree: Seq<Option<u32>>,
    s: u32,
    t: u32,
    fw_dist: Seq<u32>,
    fw_parents: Seq<(u32, u32)>,
    bw_dist: Seq<u32>,
    bw_parents: Seq<(u32, u32)>,
    up_arcs: Seq<(u32, u32, u32)>,
    down_arcs: Seq<(u32, u32, u32)>,
    m: u32,
)
    requires
        upward_weighted(fw_first_out, fw_head, fw_weight, fw_first_out.len() - 1),
        upward_weighted(bw_first_out, bw_head, bw_weight, bw_first_out.len() - 1),
        chordal_upward(fw_first_out, fw_head),
        chordal_upward(bw_first_out, bw_head),
        elimination_tree_of(fw_first_out, fw_head, tree),
        elimination_tree_of(bw_first_out, bw_head, tree),
        (s as int) < tree.len(),
        (t as int) < tree.len(),
        walk_state(
            fw_first_out,
            fw_head,
            fw_weight,
            tree_chain(tree, s as int),
            tree_chain(tree, s as int).len() as int,
            s,
            fw_dist,
            fw_parents,
        ),
        walk_state(
            bw_first_out,
            bw_head,
            bw_weight,
            tree_chain(tree, t as int),
            tree_chain(tree, t as int).len() as int,
            t,
            bw_dist,
            bw_parents,
        ),
        arc_path(fw_first_out, fw_head, up_arcs, s, m),
        arc_path(bw_first_out, bw_head, down_arcs, t, m),
    ensures
        min_distance(meeting_candidates(tree_chain(tree, s as int), tree_chain(tree, t as int), fw_dist, bw_dist))
            <= arcs_weight(fw_weight, up_arcs) + arcs_weight(bw_weight, down_arcs),
{
    let cands = meeting_candidates(tree_chain(tree, s as int), tree_chain(tree, t as int), fw_dist, bw_dist);
    lemma_walk_distance_optimal(fw_first_out, fw_head, fw_weight, tree, s, fw_dist, fw_parents, up_arcs, m);
    lemma_walk_distance_optimal(bw_first_out, bw_head, bw_weight, tree, t, bw_dist, bw_parents, down_arcs, m);
    lemma_min_distance_bounded(cands);
    let n = fw_first_out.len() - 1;
    lemma_tree_chain_shape(tree, s as int);
    let k = choose|k: int| 0 <= k < tree_chain(tree, s as int).len() && tree_chain(tree, s as int)[k] == m;
    assert((m as int) < n);
    assert(fw_dist[m as int] <= INFINITY);
    assert(bw_dist[m as int] <= INFINITY);
    if fw_dist[m as int] < INFINITY && bw_dist[m as int] < INFINITY {
        lemma_meeting_candidate_present(tree_chain(tree, s as int), tree_chain(tree, t as int), fw_dist, bw_dist, m);
        let j = choose|j: int| 0 <= j < cands.len() && cands[j] == (m, (fw_dist[m as int] + bw_dist[m as int]) as u32);
        lemma_min_distance_le(cands, j);
    }
}

proof fn lemma_min_distance_bounded(cands: Seq<(u32, u32)>)
    ensures
        min_distance(cands) <= INFINITY,
    decreases cands.len(),
{
    if cands.len() > 0 {
        lemma_min_distance_bounded(cands.drop_last());
    }
}

/// Finds alternative routes through the common ancestors, in the
/// elimination tree, of the two end points of a query.
pub struct MultiRouteServer<'a, C> {
    customized: &'a C,
    fw_distances: Vec<u32>,
    bw_distances: Vec<u32>,
    fw_parents: Vec<(u32, u32)>,
    bw_parents: Vec<(u32, u32)>,
}

impl<'a, C: Customized> MultiRouteServer<'a, C> {
    pub closed spec fn spec_customized(&self) -> C {
        *self.customized
    }

    pub closed spec fn spec_fw_distances(&self) -> Seq<u32> {
        self.fw_distances@
    }

    pub closed spec fn spec_bw_distances(&self) -> Seq<u32> {
        self.bw_distances@
    }

    pub closed spec fn spec_fw_parents(&self) -> Seq<(u32, u32)> {
        self.fw_parents@
    }

    pub closed spec fn spec_bw_parents(&self) -> Seq<(u32, u32)> {
        self.bw_parents@
    }

    /// A server over `customized` with every distance at `INFINITY` and
    /// every parent at `(n, m)`.
    pub fn new(customized: &'a C) -> (server: Self)
        requires
            customized.spec_forward_graph().0.len() >= 1,
            customized.spec_forward_graph().0.len() - 1 <= u32::MAX,
            customized.spec_forward_graph().1.len() <= u32::MAX,
        ensures
            server.spec_customized() == *customized,
            server.spec_fw_distances() == Seq::new(num_walk_nodes(customized) as nat, |i: int| INFINITY),
            server.spec_bw_distances() == Seq::new(num_walk_nodes(customized) as nat, |i: int| INFINITY),
            server.spec_fw_parents() == Seq::new(
                num_walk_nodes(customized) as nat,
                |i: int| (num_walk_nodes(customized) as u32, customized.spec_forward_graph().1.len() as u32),
            ),
            server.spec_bw_parents() == server.spec_fw_parents(),
    {
        let g = customized.forward_graph();
        let n = g.first_out.len() - 1;
        let m = g.head.len();
        let mut fw_distances: Vec<u32> = Vec::new();
        let mut fw_parents: Vec<(u32, u32)> = Vec::new();
        let mut i: usize = 0;
        while i < n
            invariant
                i <= n,
                n <= u32::MAX,
                m <= u32::MAX,
                fw_distances@ == Seq::new(i as nat, |k: int| INFINITY),
                fw_parents@ == Seq::new(i as nat, |k: int| (n as u32, m as u32)),
            decreases n - i,
        {
            fw_distances.push(INFINITY);
            fw_parents.push((n as u32, m as u32));
            proof {
                assert(fw_distances@ =~= Seq::new((i + 1) as nat, |k: int| INFINITY));
                assert(fw_parents@ =~= Seq::new((i + 1) as nat, |k: int| (n as u32, m as u32)));
            }
            i = i + 1;
        }
        let bw_distances = copy_ids(&fw_distances);
        let bw_parents = copy_pairs(&fw_parents);
        MultiRouteServer { customized, fw_distances, bw_distances, fw_parents, bw_parents }
    }

    /// Walks up the elimination tree from `from` (upward graph) and from
    /// `to` (downward graph), keeps both walks' distances and parents, and
    /// returns every common ancestor both walks reached with the sum of its
    /// two distances, shortest first. On a chordal customization the first
    /// is the shortest up-down distance from `from` to `to`.
    pub fn collect_meeting_nodes(&mut self, from: u32, to: u32) -> (cands: Vec<(u32, u32)>)
        requires
            walkable(&old(self).spec_customized()),
            (from as int) < num_walk_nodes(&old(self).spec_customized()),
            (to as int) < num_walk_nodes(&old(self).spec_customized()),
        ensures
            final(self).spec_customized() == old(self).spec_customized(),
            final(self).spec_fw_distances() == walk_dist(
                old(self).spec_customized().spec_forward_graph().0,
                old(self).spec_customized().spec_forward_graph().1,
                old(self).spec_customized().spec_forward_graph().2,
                old(self).spec_customized().spec_cch().spec_cch_tree(),
                from,
            ),
            final(self).spec_bw_distances() == walk_dist(
                old(self).spec_customized().spec_backward_graph().0,
                old(self).spec_customized().spec_backward_graph().1,
                old(self).spec_customized().spec_backward_graph().2,
                old(self).spec_customized().spec_cch().spec_cch_tree(),
                to,
            ),
            walk_state(
                old(self).spec_customized().spec_forward_graph().0,
                old(self).spec_customized().spec_forward_graph().1,
                old(self).spec_customized().spec_forward_graph().2,
                tree_chain(old(self).spec_customized().spec_cch().spec_cch_tree(), from as int),
                tree_chain(old(self).spec_customized().spec_cch().spec_cch_tree(), from as int).len() as int,
                from,
                final(self).spec_fw_distances(),
                final(self).spec_fw_parents(),
            ),
            walk_state(
                old(self).spec_customized().spec_backward_graph().0,
                old(self).spec_customized().spec_backward_graph().1,
                old(self).spec_customized().spec_backward_graph().2,
                tree_chain(old(self).spec_customized().spec_cch().spec_cch_tree(), to as int),
                tree_chain(old(self).spec_customized().spec_cch().spec_cch_tree(), to as int).len() as int,
                to,
                final(self).spec_bw_distances(),
                final(self).spec_bw_parents(),
            ),
            cands@.to_multiset() == meetings_of(&old(self).spec_customized(), from, to).to_multiset(),
            sorted_by_distance(cands@),
            chordal_customization(&old(self).spec_customized()) ==> first_meeting_shortest(&old(self).spec_customized(), from, to, cands@),
    {
        let ghost gc = self.spec_customized();
        let c = self.customized;
        let tree = c.cch().elimination_tree();
        let (fw_chain, fw_dist, fw_par) = elimination_tree_walk(&c.forward_graph(), tree, from);
        let (bw_chain, bw_dist, bw_par) = elimination_tree_walk(&c.backward_graph(), tree, to);
        proof {
            lemma_tree_chain_shape(tree@, from as int);
            lemma_tree_chain_shape(tree@, to as int);
        }
        let found = common_reached(&fw_chain, &bw_chain, &fw_dist, &bw_dist);
        let cands = sort_by_distance(&found);
        self.fw_distances = fw_dist;
        self.bw_distances = bw_dist;
        self.fw_parents = fw_par;
        self.bw_parents = bw_par;
        proof {
            if chordal_customization(&gc) {
                let fwd = gc.spec_forward_graph();
                let bwd = gc.spec_backward_graph();
                lemma_first_meeting_shortest(
                    fwd.0,
                    fwd.1,
                    fwd.2,
                    bwd.0,
                    bwd.1,
                    bwd.2,
                    gc.spec_cch().spec_cch_tree(),
                    from,
                    to,
                    self.spec_fw_distances(),
                    self.spec_fw_parents(),
                    self.spec_bw_distances(),
                    self.spec_bw_parents(),
                    cands@,
                );
            }
        }
        cands
    }
    /// Reconstructs and unpacks the path from `from` to `to` through
    /// `meeting_node` (all ranks) from the walks that
    /// `collect_meeting_nodes` left, as node ids; empty when an arc on it
    /// cannot be unpacked.
    pub fn reconstruct_path(&self, from: u32, to: u32, meeting_node: u32) -> (path: Vec<u32>)
        requires
            walkable(&self.spec_customized()),
            self.spec_customized().spec_cch().spec_cch_order().wf(),
            self.spec_customized().spec_cch().spec_cch_order().spec_len() == num_walk_nodes(&self.spec_customized()),
            (meeting_node as int) < num_walk_nodes(&self.spec_customized()),
            walk_state(
                self.spec_customized().spec_forward_graph().0,
                self.spec_customized().spec_forward_graph().1,
                self.spec_customized().spec_forward_graph().2,
                tree_chain(self.spec_customized().spec_cch().spec_cch_tree(), from as int),
                tree_chain(self.spec_customized().spec_cch().spec_cch_tree(), from as int).len() as int,
                from,
                self.spec_fw_distances(),
                self.spec_fw_parents(),
            ),
            walk_state(
                self.spec_customized().spec_backward_graph().0,
                self.spec_customized().spec_backward_graph().1,
                self.spec_customized().spec_backward_graph().2,
                tree_chain(self.spec_customized().spec_cch().spec_cch_tree(), to as int),
                tree_chain(self.spec_customized().spec_cch().spec_cch_tree(), to as int).len() as int,
                to,
                self.spec_bw_distances(),
                self.spec_bw_parents(),
            ),
            (from as int) < num_walk_nodes(&self.spec_customized()),
            (to as int) < num_walk_nodes(&self.spec_customized()),
            self.spec_fw_distances()[meeting_node as int] < INFINITY,
            self.spec_bw_distances()[meeting_node as int] < INFINITY,
        ensures
            path@ == route_path(&self.spec_customized(), self.spec_fw_parents(), self.spec_bw_parents(), from, to, meeting_node),
            forall|i: int| 0 <= i < path@.len() ==> (#[trigger] path@[i] as int) < num_walk_nodes(&self.spec_customized()),
    {
        let ghost c = self.spec_customized();
        let ghost n = num_walk_nodes(&c);
        proof {
            let tree = c.spec_cch().spec_cch_tree();
            let fwd = c.spec_forward_graph();
            let bwd = c.spec_backward_graph();
            lemma_tree_chain_shape(tree, from as int);
            lemma_tree_chain_shape(tree, to as int);
            let fpar = self.spec_fw_parents();
            let bpar = self.spec_bw_parents();
            lemma_forward_trace(
                fwd.0,
                fwd.1,
                fwd.2,
                tree_chain(tree, from as int),
                from,
                self.spec_fw_distances(),
                fpar,
                meeting_node,
                fpar.len(),
            );
            lemma_backward_trace(
                bwd.0,
                bwd.1,
                bwd.2,
                tree_chain(tree, to as int),
                to,
                self.spec_bw_distances(),
                bpar,
                meeting_node,
                bpar.len(),
            );
            let fw = fw_trace(fpar, from, meeting_node, fpar.len())->Some_0;
            let bw = bw_trace(bpar, to, meeting_node, bpar.len())->Some_0;
            if arcs_unpackable(&c, fw) && arcs_unpackable(&c, bw) {
                assert forall|i: int| 0 <= i < fw.len() implies (#[trigger] fw[i].0 as int) < n && (fw[i].1 as int) < n by {
                    assert(arc_of_node(fwd.0, fw[i].0 as int, fw[i].2 as int));
                }
                assert forall|i: int| 0 <= i < bw.len() implies (#[trigger] bw[i].0 as int) < n && (bw[i].1 as int) < n by {
                    assert(arc_of_node(bwd.0, bw[i].1 as int, bw[i].2 as int));
                }
                lemma_unpacked_ranks_below(&c, fw, n);
                lemma_unpacked_ranks_below(&c, bw, n);
                let a = unpacked_ranks(&c, fw);
                let b = unpacked_ranks(&c, bw);
                let ranks = seq![from] + a + b;
                assert forall|i: int| 0 <= i < ranks.len() implies (#[trigger] ranks[i] as int) < c.spec_cch().spec_cch_order().spec_len() by {
                    if i > 0 && i < 1 + a.len() {
                        assert(ranks[i] == a[i - 1]);
                    } else if i >= 1 + a.len() {
                        assert(ranks[i] == b[i - 1 - a.len()]);
                    }
                }
            }
        }
        reconstruct_path(self.customized, &self.fw_parents, &self.bw_parents, from, to, meeting_node)
    }

    /// Up to `max_alternatives` routes from `from` to `to` (node ids): the
    /// shortest route through the best meeting node, then the routes
    /// through the other meeting nodes, shortest first, that pass the
    /// admissibility tests (see `accepted_routes`). `within_stretch` decides
    /// the stretch test for the main path and a candidate path;
    /// `edge_cost` gives the arc costs of the T-test.
    #[verifier::spinoff_prover]
    #[verifier::rlimit(40)]
    pub fn multi_query<G: Fn(&Vec<u32>, &Vec<u32>) -> bool, E: Fn(u32, u32) -> u32>(
        &mut self,
        from: u32,
        to: u32,
        max_alternatives: usize,
        within_stretch: &G,
        edge_cost: &E,
    ) -> (routes: Vec<(u32, Vec<u32>)>)
        requires
            walkable(&old(self).spec_customized()),
            old(self).spec_customized().spec_cch().spec_cch_order().wf(),
            old(self).spec_customized().spec_cch().spec_cch_order().spec_len() == num_walk_nodes(&old(self).spec_customized()),
            (from as int) < num_walk_nodes(&old(self).spec_customized()),
            (to as int) < num_walk_nodes(&old(self).spec_customized()),
            forall|m: Vec<u32>, p: Vec<u32>| call_requires(*within_stretch, (&m, &p)),
            forall|a: u32, d: u32| call_requires(*edge_cost, (a, d)),
        ensures
            final(self).spec_customized() == old(self).spec_customized(),
            max_alternatives == 0 ==> routes@.len() == 0,
            forall|i: int, a: int, b: int|
                1 <= i < routes@.len() && 0 <= a < b < routes@[i].1@.len() ==> #[trigger] routes@[i].1@[a] != #[trigger] routes@[i].1@[b],
            max_alternatives > 0 ==> exists|cands: Seq<(u32, u32)>, stretch: Seq<bool>, optimal: Seq<bool>|
                #[trigger] query_outcome(
                    &old(self).spec_customized(),
                    within_stretch,
                    edge_cost,
                    final(self).spec_fw_parents(),
                    final(self).spec_bw_parents(),
                    old(self).spec_customized().spec_cch().spec_cch_order().rank_seq()[from as int],
                    old(self).spec_customized().spec_cch().spec_cch_order().rank_seq()[to as int],
                    max_alternatives as int,
                    cands,
                    stretch,
                    optimal,
                    routes_view(routes@),
                ) && (chordal_customization(&old(self).spec_customized()) ==> first_meeting_shortest(
                    &old(self).spec_customized(),
                    old(self).spec_customized().spec_cch().spec_cch_order().rank_seq()[from as int],
                    old(self).spec_customized().spec_cch().spec_cch_order().rank_seq()[to as int],
                    cands,
                )),
    {
        if max_alternatives == 0 {
            return Vec::new();
        }
        let ghost c = self.spec_customized();
        let order = self.customized.cch().node_order();
        let from_rank = order.rank(from);
        let to_rank = order.rank(to);
        let cands = self.collect_meeting_nodes(from_rank, to_rank);
        let ghost fwp = self.spec_fw_parents();
        let ghost bwp = self.spec_bw_parents();
        let ghost mc = meetings_of(&c, from_rank, to_rank);
        proof {
            let tree = c.spec_cch().spec_cch_tree();
            let fwd = c.spec_forward_graph();
            let bwd = c.spec_backward_graph();
            lemma_meeting_candidates_facts(
                tree_chain(tree, from_rank as int),
                tree_chain(tree, to_rank as int),
                walk_dist(fwd.0, fwd.1, fwd.2, tree, from_rank),
                walk_dist(bwd.0, bwd.1, bwd.2, tree, to_rank),
            );
            lemma_tree_chain_shape(tree, from_rank as int);
            assert forall|i: int| 0 <= i < cands@.len() implies {
                let v = #[trigger] cands@[i].0;
                &&& (v as int) < num_walk_nodes(&c)
                &&& self.spec_fw_distances()[v as int] < INFINITY
                &&& self.spec_bw_distances()[v as int] < INFINITY
            } by {
                vstd::seq_lib::to_multiset_contains(cands@, cands@[i]);
                vstd::seq_lib::to_multiset_contains(mc, cands@[i]);
                assert(cands@.contains(cands@[i]));
                let j = choose|j: int| 0 <= j < mc.len() && mc[j] == cands@[i];
                let v = mc[j].0;
                assert(tree_chain(tree, from_rank as int).contains(v));
                let q = choose|q: int| 0 <= q < tree_chain(tree, from_rank as int).len() && tree_chain(tree, from_rank as int)[q] == v;
                assert((tree_chain(tree, from_rank as int)[q] as int) < tree.len());
            }
        }
        if cands.len() == 0 {
            let none: Vec<(u32, Vec<u32>)> = Vec::new();
            proof {
                let st = Seq::<bool>::empty();
                assert(routes_view(none@) =~= Seq::<(u32, Seq<u32>)>::empty());
                assert(query_outcome(&c, within_stretch, edge_cost, fwp, bwp, from_rank, to_rank, max_alternatives as int, cands@, st, st, routes_view(none@)));
            }
            return none;
        }
        let best = cands[0].1;
        let main_path = self.reconstruct_path(from_rank, to_rank, cands[0].0);
        if main_path.len() == 0 {
            let none: Vec<(u32, Vec<u32>)> = Vec::new();
            proof {
                let st = Seq::<bool>::empty();
                assert(routes_view(none@) =~= Seq::<(u32, Seq<u32>)>::empty());
                assert(query_outcome(&c, within_stretch, edge_cost, fwp, bwp, from_rank, to_rank, max_alternatives as int, cands@, st, st, routes_view(none@)));
            }
            return none;
        }
        let mut accepted: Vec<(u32, Vec<u32>)> = Vec::new();
        let mut accepted_sets: Vec<HashSetWithView<u64>> = Vec::new();
        accepted_sets.push(arc_set(&main_path));
        accepted.push((best, copy_ids(&main_path)));
        let ghost mut stretch: Seq<bool> = Seq::new(cands@.len(), |i: int| false);
        let ghost mut optimal: Seq<bool> = Seq::new(cands@.len(), |i: int| false);
        let max = max_alternatives;
        proof {
            lemma_accepted_base(&c, fwp, bwp, from_rank, to_rank, cands@, max as int, stretch, optimal);
            assert(routes_view(accepted@) =~= accepted_routes(&c, fwp, bwp, from_rank, to_rank, cands@, max as int, stretch, optimal, 1));
        }
        let mut k: usize = 1;
        while k < cands.len() && accepted.len() < max
            invariant
                1 <= k <= cands@.len(),
                self.spec_customized() == c,
                self.spec_fw_parents() == fwp,
                self.spec_bw_parents() == bwp,
                walkable(&c),
                c.spec_cch().spec_cch_order().wf(),
                c.spec_cch().spec_cch_order().spec_len() == num_walk_nodes(&c),
                (from_rank as int) < num_walk_nodes(&c),
                (to_rank as int) < num_walk_nodes(&c),
                walk_state(
                    c.spec_forward_graph().0,
                    c.spec_forward_graph().1,
                    c.spec_forward_graph().2,
                    tree_chain(c.spec_cch().spec_cch_tree(), from_rank as int),
                    tree_chain(c.spec_cch().spec_cch_tree(), from_rank as int).len() as int,
                    from_rank,
                    self.spec_fw_distances(),
                    self.spec_fw_parents(),
                ),
                walk_state(
                    c.spec_backward_graph().0,
                    c.spec_backward_graph().1,
                    c.spec_backward_graph().2,
                    tree_chain(c.spec_cch().spec_cch_tree(), to_rank as int),
                    tree_chain(c.spec_cch().spec_cch_tree(), to_rank as int).len() as int,
                    to_rank,
                    self.spec_bw_distances(),
                    self.spec_bw_parents(),
                ),
                forall|i: int| 0 <= i < cands@.len() ==> {
                    let v = #[trigger] cands@[i].0;
                    &&& (v as int) < num_walk_nodes(&c)
                    &&& self.spec_fw_distances()[v as int] < INFINITY
                    &&& self.spec_bw_distances()[v as int] < INFINITY
                },
                best == cands@[0].1,
                main_path@ == route_path(&c, fwp, bwp, from_rank, to_rank, cands@[0].0),
                main_path@.len() > 0,
                forall|m: Vec<u32>, p: Vec<u32>| call_requires(*within_stretch, (&m, &p)),
                forall|a: u32, d: u32| call_requires(*edge_cost, (a, d)),
                stretch.len() == cands@.len(),
                optimal.len() == cands@.len(),
                routes_view(accepted@) == accepted_routes(&c, fwp, bwp, from_rank, to_rank, cands@, max as int, stretch, optimal, k as int),
                accepted_sets@.len() == accepted@.len(),
                forall|j: int| 0 <= j < accepted_sets@.len() ==> (#[trigger] accepted_sets@[j])@ == all_path_arcs(routes_view(accepted@)[j].1),
                forall|q: int|
                    1 <= q < k ==> #[trigger] answer_fits(
                        &c,
                        within_stretch,
                        edge_cost,
                        fwp,
                        bwp,
                        from_rank,
                        to_rank,
                        cands@,
                        max as int,
                        stretch,
                        optimal,
                        q,
                    ),
            decreases cands@.len() - k,
        {
            let (meeting, dist) = cands[k];
            let ghost acc = routes_view(accepted@);
            let ghost s0 = stretch;
            let ghost o0 = optimal;
            let (picked, Ghost(within), Ghost(ok)) = self.consider_candidate(
                from_rank,
                to_rank,
                meeting,
                best,
                &main_path,
                &accepted_sets,
                Ghost(acc),
                within_stretch,
                edge_cost,
            );
            proof {
                stretch = stretch.update(k as int, within);
                optimal = optimal.update(k as int, ok);
                lemma_answers_kept(&c, within_stretch, edge_cost, fwp, bwp, from_rank, to_rank, cands@, max as int, s0, o0, stretch, optimal, k as int);
                lemma_answer_fits_intro(&c, within_stretch, edge_cost, fwp, bwp, from_rank, to_rank, cands@, max as int, stretch, optimal, k as int);
                lemma_accepted_step(&c, fwp, bwp, from_rank, to_rank, cands@, max as int, stretch, optimal, k as int);
            }
            match picked {
                Some(path) => {
                    accepted_sets.push(arc_set(&path));
                    accepted.push((dist, path));
                },
                None => {},
            }
            proof {
                assert(routes_view(accepted@) =~= accepted_routes(&c, fwp, bwp, from_rank, to_rank, cands@, max as int, stretch, optimal, k + 1));
            }
            k = k + 1;
        }
        proof {
            if k < cands@.len() {
                lemma_accepted_full(&c, fwp, bwp, from_rank, to_rank, cands@, max as int, stretch, optimal, k as int, cands@.len() as int);
                assert forall|q: int| 1 <= q < cands@.len() implies #[trigger] answer_fits(
                    &c,
                    within_stretch,
                    edge_cost,
                    fwp,
                    bwp,
                    from_rank,
                    to_rank,
                    cands@,
                    max as int,
                    stretch,
                    optimal,
                    q,
                ) by {
                    if q >= k {
                        lemma_accepted_full(&c, fwp, bwp, from_rank, to_rank, cands@, max as int, stretch, optimal, k as int, q);
                        lemma_answer_fits_full(&c, within_stretch, edge_cost, fwp, bwp, from_rank, to_rank, cands@, max as int, stretch, optimal, q);
                    }
                }
            }
            assert(query_outcome(
                &c,
                within_stretch,
                edge_cost,
                fwp,
                bwp,
                from_rank,
                to_rank,
                max as int,
                cands@,
                stretch,
                optimal,
                routes_view(accepted@),
            ));
            lemma_alternatives_loop_free(&c, fwp, bwp, from_rank, to_rank, cands@, max as int, stretch, optimal, k as int);
            let rv = routes_view(accepted@);
            assert forall|i: int, a: int, b: int|
                1 <= i < accepted@.len() && 0 <= a < b < accepted@[i].1@.len() implies #[trigger] accepted@[i].1@[a]
                    != #[trigger] accepted@[i].1@[b] by {
                assert(rv[i].1 == accepted@[i].1@);
                assert(rv[i].1[a] != rv[i].1[b]);
            }
        }
        accepted
    }

    /// The admissibility tests for the candidate through `meeting` against
    /// the routes `acc` accepted so far (whose arc sets are
    /// `accepted_sets`): its path when it passes them all, and the answers
    /// the two tests gave where they were asked.
    fn consider_candidate<G: Fn(&Vec<u32>, &Vec<u32>) -> bool, E: Fn(u32, u32) -> u32>(
        &mut self,
        from_rank: u32,
        to_rank: u32,
        meeting: u32,
        best: u32,
        main_path: &Vec<u32>,
        accepted_sets: &Vec<HashSetWithView<u64>>,
        Ghost(acc): Ghost<Seq<(u32, Seq<u32>)>>,
        within_stretch: &G,
        edge_cost: &E,
    ) -> (res: (Option<Vec<u32>>, Ghost<bool>, Ghost<bool>))
        requires
            walkable(&old(self).spec_customized()),
            old(self).spec_customized().spec_cch().spec_cch_order().wf(),
            old(self).spec_customized().spec_cch().spec_cch_order().spec_len() == num_walk_nodes(&old(self).spec_customized()),
            (meeting as int) < num_walk_nodes(&old(self).spec_customized()),
            walk_state(
                old(self).spec_customized().spec_forward_graph().0,
                old(self).spec_customized().spec_forward_graph().1,
                old(self).spec_customized().spec_forward_graph().2,
                tree_chain(old(self).spec_customized().spec_cch().spec_cch_tree(), from_rank as int),
                tree_chain(old(self).spec_customized().spec_cch().spec_cch_tree(), from_rank as int).len() as int,
                from_rank,
                old(self).spec_fw_distances(),
                old(self).spec_fw_parents(),
            ),
            walk_state(
                old(self).spec_customized().spec_backward_graph().0,
                old(self).spec_customized().spec_backward_graph().1,
                old(self).spec_customized().spec_backward_graph().2,
                tree_chain(old(self).spec_customized().spec_cch().spec_cch_tree(), to_rank as int),
                tree_chain(old(self).spec_customized().spec_cch().spec_cch_tree(), to_rank as int).len() as int,
                to_rank,
                old(self).spec_bw_distances(),
                old(self).spec_bw_parents(),
            ),
            (from_rank as int) < num_walk_nodes(&old(self).spec_customized()),
            (to_rank as int) < num_walk_nodes(&old(self).spec_customized()),
            old(self).spec_fw_distances()[meeting as int] < INFINITY,
            old(self).spec_bw_distances()[meeting as int] < INFINITY,
            accepted_sets@.len() == acc.len(),
            forall|j: int| 0 <= j < accepted_sets@.len() ==> (#[trigger] accepted_sets@[j])@ == all_path_arcs(acc[j].1),
            forall|m: Vec<u32>, p: Vec<u32>| call_requires(*within_stretch, (&m, &p)),
            forall|a: u32, d: u32| call_requires(*edge_cost, (a, d)),
        ensures
            *final(self) == *old(self),
            ({
                let path = route_path(
                    &old(self).spec_customized(),
                    old(self).spec_fw_parents(),
                    old(self).spec_bw_parents(),
                    from_rank,
                    to_rank,
                    meeting,
                );
                let tested = path.len() > 0 && !repeats(path);
                let within = res.1@;
                let ok = res.2@;
                &&& tested ==> stretch_answer(within_stretch, main_path@, path, within)
                &&& tested && within && !similar_to_any(path, acc) ==> optimality_answer(
                    &old(self).spec_customized(),
                    edge_cost,
                    path,
                    meeting,
                    best,
                    ok,
                )
                &&& res.0 is Some <==> tested && within && !similar_to_any(path, acc) && ok
                &&& res.0 matches Some(p) ==> p@ == path
            }),
    {
        let path = self.reconstruct_path(from_rank, to_rank, meeting);
        if path.len() == 0 || has_repeated_nodes(&path) {
            return (None, Ghost(false), Ghost(false));
        }
        let within = within_stretch(main_path, &path);
        proof {
            assert(stretch_answer(within_stretch, main_path@, path@, within));
        }
        if !within {
            return (None, Ghost(within), Ghost(false));
        }
        let similar = too_similar_to_any(&path, accepted_sets);
        proof {
            assert(similar == similar_to_any(path@, acc)) by {
                if similar {
                    let j = choose|j: int|
                        0 <= j < accepted_sets@.len() && sharing_exceeds(
                            all_path_arcs(path@).intersect(#[trigger] accepted_sets@[j]@).len() as int,
                            all_path_arcs(path@).len() as int,
                        );
                    assert(accepted_sets@[j]@ == all_path_arcs(acc[j].1));
                }
                if similar_to_any(path@, acc) {
                    let j = choose|j: int|
                        0 <= j < acc.len() && sharing_exceeds(
                            all_path_arcs(path@).intersect(all_path_arcs(#[trigger] acc[j].1)).len() as int,
                            all_path_arcs(path@).len() as int,
                        );
                    assert(accepted_sets@[j]@ == all_path_arcs(acc[j].1));
                }
            }
        }
        if similar {
            return (None, Ghost(within), Ghost(false));
        }
        let ok = self.check_local_optimality(&path, meeting, best, edge_cost);
        if ok {
            (Some(path), Ghost(within), Ghost(ok))
        } else {
            (None, Ghost(within), Ghost(ok))
        }
    }

    /// The shortest distance from `from_rank` to `to_rank` by a fresh
    /// bidirectional walk; the server's own walks are left as they are.
    pub fn cch_point_distance(&mut self, from_rank: u32, to_rank: u32) -> (d: u32)
        requires
            walkable(&old(self).spec_customized()),
            (from_rank as int) < num_walk_nodes(&old(self).spec_customized()),
            (to_rank as int) < num_walk_nodes(&old(self).spec_customized()),
        ensures
            *final(self) == *old(self),
            d == point_distance(&old(self).spec_customized(), from_rank, to_rank),
    {
        if from_rank == to_rank {
            return 0;
        }
        let c = self.customized;
        let tree = c.cch().elimination_tree();
        let (fw_chain, fw_dist, _fw_par) = elimination_tree_walk(&c.forward_graph(), tree, from_rank);
        let (bw_chain, bw_dist, _bw_par) = elimination_tree_walk(&c.backward_graph(), tree, to_rank);
        proof {
            lemma_tree_chain_shape(tree@, from_rank as int);
            lemma_tree_chain_shape(tree@, to_rank as int);
        }
        let found = common_reached(&fw_chain, &bw_chain, &fw_dist, &bw_dist);
        let mut best: u32 = INFINITY;
        let mut i: usize = 0;
        while i < found.len()
            invariant
                i <= found@.len(),
                best == min_distance(found@.take(i as int)),
            decreases found@.len() - i,
        {
            let d = found[i].1;
            proof {
                assert(found@.take(i + 1).drop_last() =~= found@.take(i as int));
            }
            if d < best {
                best = d;
            }
            i = i + 1;
        }
        proof {
            assert(found@.take(found@.len() as int) =~= found@);
        }
        best
    }
    /// The T-test for `path` (node ids) through the rank `meeting_node_rank`:
    /// paths of fewer than three nodes and paths that miss the via node pass
    /// at once; otherwise the arc costs come from `edge_cost` and the verdict
    /// is `locally_optimal` over them.
    pub fn check_local_optimality<E: Fn(u32, u32) -> u32>(
        &mut self,
        path: &Vec<u32>,
        meeting_node_rank: u32,
        best_distance: u32,
        edge_cost: &E,
    ) -> (b: bool)
        requires
            walkable(&old(self).spec_customized()),
            old(self).spec_customized().spec_cch().spec_cch_order().wf(),
            old(self).spec_customized().spec_cch().spec_cch_order().spec_len() == num_walk_nodes(&old(self).spec_customized()),
            (meeting_node_rank as int) < num_walk_nodes(&old(self).spec_customized()),
            forall|i: int| 0 <= i < path@.len() ==> (#[trigger] path@[i] as int) < num_walk_nodes(&old(self).spec_customized()),
            forall|a: u32, d: u32| call_requires(*edge_cost, (a, d)),
        ensures
            *final(self) == *old(self),
            optimality_answer(&old(self).spec_customized(), edge_cost, path@, meeting_node_rank, best_distance, b),
    {
        let ghost c0 = self.spec_customized();
        if path.len() < 3 {
            return true;
        }
        let order = self.customized.cch().node_order();
        let via_node = order.node(meeting_node_rank);
        let mut via_pos: Option<usize> = None;
        let mut i: usize = 0;
        while i < path.len()
            invariant
                i <= path@.len(),
                via_pos == first_position(path@.take(i as int), via_node),
                via_pos matches Some(v) ==> v < i,
            decreases path@.len() - i,
        {
            proof {
                assert(path@.take(i + 1).drop_last() =~= path@.take(i as int));
            }
            if via_pos.is_none() && path[i] == via_node {
                via_pos = Some(i);
            }
            i = i + 1;
        }
        proof {
            assert(path@.take(path@.len() as int) =~= path@);
        }
        let p = match via_pos {
            Some(p) => p,
            None => {
                return true;
            },
        };
        let mut costs: Vec<u32> = Vec::new();
        let mut k: usize = 0;
        let last = path.len() - 1;
        while k < last
            invariant
                last + 1 == path@.len(),
                k <= last,
                costs@.len() == k,
                forall|a: u32, d: u32| call_requires(*edge_cost, (a, d)),
                forall|j: int| 0 <= j < k ==> call_ensures(*edge_cost, (path@[j], path@[j + 1]), #[trigger] costs@[j]),
            decreases path@.len() - k,
        {
            let cost = edge_cost(path[k], path[k + 1]);
            costs.push(cost);
            k = k + 1;
        }
        proof {
            assert(costs_along(edge_cost, path@, costs@));
        }
        let step = local_optimality_step(path.len(), Some(p), best_distance, &costs);
        match step {
            LocalOptStep::Accept => true,
            LocalOptStep::Query { v_prime_pos, v_double_pos, subpath_cost } => {
                let v_prime_rank = order.rank(path[v_prime_pos]);
                let v_double_rank = order.rank(path[v_double_pos]);
                let exact_dist = self.cch_point_distance(v_prime_rank, v_double_rank);
                local_optimality_verdict(subpath_cost, exact_dist)
            },
        }
    }
}

/// A copy of a list of pairs.
fn copy_pairs(v: &Vec<(u32, u32)>) -> (out: Vec<(u32, u32)>)
    ensures
        out@ == v@,
{
    let mut out: Vec<(u32, u32)> = Vec::new();
    let mut i: usize = 0;
    while i < v.len()
        invariant
            i <= v@.len(),
            out@ == v@.take(i as int),
        decreases v@.len() - i,
    {
        out.push(v[i]);
        proof {
            assert(v@.take(i + 1) =~= v@.take(i as int).push(v@[i as int]));
        }
        i = i + 1;
    }
    proof {
        assert(v@.take(v@.len() as int) =~= v@);
    }
    out
}

} // verus!
