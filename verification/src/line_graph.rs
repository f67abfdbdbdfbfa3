//! Line graphs (turn-expanded graphs): every line-graph node stands for an
//! arc of the original road graph; split nodes clone an original arc. This
//! module maps line-graph nodes and paths back to the original graph and
//! checks the loaded mapping data.

use vstd::prelude::*;
use crate::cch::{CCHT, tails_match};
use crate::cch_cache::{Direction, find_not_below, first_not_below, lemma_first_not_below_none};
use crate::directed_cch::{DirectedCCH, all_below};
use crate::graph::{INFINITY, arc_of_node, copy_ids, offsets_monotone, tails_from_first_out};
use crate::route_eval::{first_head_match, sat_add};

verus! {

/// Why loaded line-graph data was rejected.
#[derive(Clone, Copy, Debug, PartialEq, Eq, Structural)]
pub enum LineGraphError {
    /// The split map names an arc the original graph does not have.
    SplitMapOutOfRange { original: u32, num_original_edges: usize },
    /// The line-graph node to original arc map does not cover the line graph.
    MappingLengthMismatch { len: usize, num_lg_nodes: usize },
    /// The roundabout flags do not cover the line graph.
    RoundaboutLengthMismatch { len: usize, num_lg_nodes: usize },
    /// A CCH arc maps to a line-graph arc the metric does not have.
    EdgeMapping { dir: Direction, edge_idx: usize, arc: u32, num_metric_edges: usize },
}

/// The node-to-arc map of a line graph: the identity on the original arcs,
/// then the original arc of every split node.
pub open spec fn arc_mapping(num_original_edges: int, split_map: Seq<u32>) -> Seq<u32> {
    Seq::new(num_original_edges as nat, |i: int| i as u32) + split_map
}

/// Builds the map from line-graph nodes to original arcs and checks that it
/// covers exactly the `num_lg_nodes` line-graph nodes.
pub fn extend_arc_mapping(num_original_edges: usize, split_map: &Vec<u32>, num_lg_nodes: usize) -> (res: Result<Vec<u32>, LineGraphError>)
    requires
        num_original_edges <= u32::MAX + 1,
        num_original_edges + split_map@.len() <= usize::MAX,
    ensures
        match first_not_below(split_map@, num_original_edges as int) {
            Some(original) => res == Err::<Vec<u32>, LineGraphError>(
                LineGraphError::SplitMapOutOfRange { original, num_original_edges },
            ),
            None => if num_original_edges + split_map@.len() != num_lg_nodes {
                res == Err::<Vec<u32>, LineGraphError>(
                    LineGraphError::MappingLengthMismatch {
                        len: (num_original_edges + split_map@.len()) as usize,
                        num_lg_nodes,
                    },
                )
            } else {
                res is Ok && res->Ok_0@ == arc_mapping(num_original_edges as int, split_map@)
            },
        },
{
    match find_not_below(split_map, num_original_edges) {
        Some(original) => {
            return Err(LineGraphError::SplitMapOutOfRange { original, num_original_edges });
        },
        None => {},
    }
    let total = num_original_edges + split_map.len();
    if total != num_lg_nodes {
        return Err(LineGraphError::MappingLengthMismatch { len: total, num_lg_nodes });
    }
    let mut map: Vec<u32> = Vec::new();
    let mut i: usize = 0;
    while i < num_original_edges
        invariant
            i <= num_original_edges,
            num_original_edges <= u32::MAX + 1,
            map@ == Seq::new(i as nat, |j: int| j as u32),
        decreases num_original_edges - i,
    {
        map.push(i as u32);
        proof {
            assert(map@ =~= Seq::new((i + 1) as nat, |j: int| j as u32));
        }
        i = i + 1;
    }
    let mut k: usize = 0;
    while k < split_map.len()
        invariant
            k <= split_map@.len(),
            map@ == Seq::new(num_original_edges as nat, |j: int| j as u32) + split_map@.take(k as int),
        decreases split_map@.len() - k,
    {
        map.push(split_map[k]);
        proof {
            assert(split_map@.take(k + 1) =~= split_map@.take(k as int).push(split_map@[k as int]));
            assert(map@ =~= Seq::new(num_original_edges as nat, |j: int| j as u32) + split_map@.take(k + 1));
        }
        k = k + 1;
    }
    proof {
        assert(split_map@.take(split_map@.len() as int) =~= split_map@);
    }
    Ok(map)
}

/// Checks that the roundabout flags cover the line graph.
pub fn check_roundabout_flags(len: usize, num_lg_nodes: usize) -> (res: Result<(), LineGraphError>)
    ensures
        len == num_lg_nodes <==> res is Ok,
        len != num_lg_nodes ==> res == Err::<(), LineGraphError>(LineGraphError::RoundaboutLengthMismatch { len, num_lg_nodes }),
{
    if len != num_lg_nodes {
        Err(LineGraphError::RoundaboutLengthMismatch { len, num_lg_nodes })
    } else {
        Ok(())
    }
}

/// The first arc list at or after `e` holding an arc at or above `bound`,
/// with that arc.
pub open spec fn first_bad_mapping(maps: Seq<Seq<u32>>, bound: int, e: int) -> Option<(int, u32)>
    decreases maps.len() - e,
{
    if e < 0 || e >= maps.len() {
        None
    } else if first_not_below(maps[e], bound) is Some {
        Some((e, first_not_below(maps[e], bound).unwrap()))
    } else {
        first_bad_mapping(maps, bound, e + 1)
    }
}

/// The first arc map entry, forward maps before backward maps, that names
/// no arc of a metric with `num_metric_edges` arcs.
pub open spec fn edge_mapping_problem(forward: Seq<Seq<u32>>, backward: Seq<Seq<u32>>, num_metric_edges: usize) -> Option<LineGraphError> {
    match first_bad_mapping(forward, num_metric_edges as int, 0) {
        Some((edge_idx, arc)) => Some(
            LineGraphError::EdgeMapping { dir: Direction::Forward, edge_idx: edge_idx as usize, arc, num_metric_edges },
        ),
        None => match first_bad_mapping(backward, num_metric_edges as int, 0) {
            Some((edge_idx, arc)) => Some(
                LineGraphError::EdgeMapping { dir: Direction::Backward, edge_idx: edge_idx as usize, arc, num_metric_edges },
            ),
            None => None,
        },
    }
}

/// With no bad entry from `e` on, every entry of the later maps is below the bound.
pub proof fn lemma_no_bad_mapping(maps: Seq<Seq<u32>>, bound: int, e: int)
    requires
        0 <= e,
        first_bad_mapping(maps, bound, e) is None,
    ensures
        forall|f: int, k: int| e <= f < maps.len() && 0 <= k < maps[f].len() ==> (#[trigger] maps[f][k] as int) < bound,
    decreases maps.len() - e,
{
    if e < maps.len() {
        lemma_no_bad_mapping(maps, bound, e + 1);
        lemma_first_not_below_none(maps[e], bound);
    }
}

fn check_mappings(maps: &Vec<Vec<u32>>, dir: Direction, num_metric_edges: usize) -> (res: Result<(), LineGraphError>)
    ensures
        match first_bad_mapping(crate::contraction::sets(maps@), num_metric_edges as int, 0) {
            Some((edge_idx, arc)) => res == Err::<(), LineGraphError>(
                LineGraphError::EdgeMapping { dir, edge_idx: edge_idx as usize, arc, num_metric_edges },
            ),
            None => res is Ok,
        },
{
    let ghost ms = crate::contraction::sets(maps@);
    let mut e: usize = 0;
    while e < maps.len()
        invariant
            e <= maps@.len(),
            ms == crate::contraction::sets(maps@),
            first_bad_mapping(ms, num_metric_edges as int, 0) == first_bad_mapping(ms, num_metric_edges as int, e as int),
        decreases maps@.len() - e,
    {
        proof {
            assert(ms[e as int] == maps@[e as int]@);
        }
        match find_not_below(&maps[e], num_metric_edges) {
            Some(arc) => {
                return Err(LineGraphError::EdgeMapping { dir, edge_idx: e, arc, num_metric_edges });
            },
            None => {},
        }
        e = e + 1;
    }
    Ok(())
}

/// Checks that every arc map entry of a directed CCH names an arc of the
/// metric (upward maps first, then downward).
pub fn validate_edge_mappings(cch: &DirectedCCH, num_metric_edges: usize) -> (res: Result<(), LineGraphError>)
    ensures
        match first_bad_mapping(cch.spec_forward_orig(), num_metric_edges as int, 0) {
            Some((edge_idx, arc)) => res == Err::<(), LineGraphError>(
                LineGraphError::EdgeMapping { dir: Direction::Forward, edge_idx: edge_idx as usize, arc, num_metric_edges },
            ),
            None => match first_bad_mapping(cch.spec_backward_orig(), num_metric_edges as int, 0) {
                Some((edge_idx, arc)) => res == Err::<(), LineGraphError>(
                    LineGraphError::EdgeMapping { dir: Direction::Backward, edge_idx: edge_idx as usize, arc, num_metric_edges },
                ),
                None => res is Ok,
            },
        },
        res == match edge_mapping_problem(cch.spec_forward_orig(), cch.spec_backward_orig(), num_metric_edges) {
            Some(e) => Err::<(), LineGraphError>(e),
            None => Ok(()),
        },
{
    match check_mappings(cch.forward_cch_edge_to_orig_arc(), Direction::Forward, num_metric_edges) {
        Err(e) => {
            return Err(e);
        },
        Ok(()) => {},
    }
    match check_mappings(cch.backward_cch_edge_to_orig_arc(), Direction::Backward, num_metric_edges) {
        Err(e) => Err(e),
        Ok(()) => Ok(()),
    }
}

/// The original arcs of a line-graph path that a replay reports, with the
/// node ids of the path.
pub struct MaterializedPath {
    pub route_arc_ids: Vec<u32>,
    pub weight_path_ids: Vec<u32>,
    pub path: Vec<u32>,
}

/// What a line-graph server knows of the original graph: its offsets, arc
/// tails and heads and travel times, and the original arc of every
/// line-graph node.
pub struct LineGraphMapping {
    original_first_out: Vec<u32>,
    original_tail: Vec<u32>,
    original_head: Vec<u32>,
    original_travel_time: Vec<u32>,
    original_arc_id_of_lg_node: Vec<u32>,
}

impl LineGraphMapping {
    pub closed spec fn spec_first_out(&self) -> Seq<u32> {
        self.original_first_out@
    }

    pub closed spec fn spec_tail(&self) -> Seq<u32> {
        self.original_tail@
    }

    pub closed spec fn spec_head(&self) -> Seq<u32> {
        self.original_head@
    }

    pub closed spec fn spec_travel_time(&self) -> Seq<u32> {
        self.original_travel_time@
    }

    pub closed spec fn spec_arc_of(&self) -> Seq<u32> {
        self.original_arc_id_of_lg_node@
    }

    /// The original offsets never decrease and end at the number of arcs;
    /// the tails are read off the offsets, counting arc ids from the first
    /// offset (entry `k` is the node whose arc range holds arc id
    /// `first_out[0] + k`); every line-graph node maps to an original arc and
    /// every arc has a travel time. Heads are not required to name nodes.
    pub open spec fn wf(&self) -> bool {
        &&& self.spec_first_out().len() >= 1
        &&& self.spec_first_out()[self.spec_first_out().len() - 1] == self.spec_head().len()
        &&& offsets_monotone(self.spec_first_out())
        &&& self.spec_tail().len() == self.spec_head().len() - self.spec_first_out()[0]
        &&& forall|k: int|
            0 <= k < self.spec_tail().len() ==> #[trigger] arc_of_node(
                self.spec_first_out(),
                self.spec_tail()[k] as int,
                k + self.spec_first_out()[0],
            )
        &&& all_below(self.spec_arc_of(), self.spec_head().len() as int)
        &&& self.spec_travel_time().len() >= self.spec_head().len()
    }

    /// The line-graph node's original arc has a tail entry.
    pub open spec fn has_tail(&self, lg_node: u32) -> bool {
        (self.spec_arc_of()[lg_node as int] as int) < self.spec_tail().len()
    }

    /// Sets up the mapping; the tails are derived from the offsets.
    pub fn new(
        original_first_out: Vec<u32>,
        original_head: Vec<u32>,
        original_travel_time: Vec<u32>,
        original_arc_id_of_lg_node: Vec<u32>,
    ) -> (m: LineGraphMapping)
        requires
            original_first_out@.len() >= 1,
            original_first_out@[original_first_out@.len() - 1] == original_head@.len(),
            offsets_monotone(original_first_out@),
            original_first_out@.len() - 1 <= u32::MAX,
            all_below(original_arc_id_of_lg_node@, original_head@.len() as int),
            original_travel_time@.len() >= original_head@.len(),
        ensures
            m.wf(),
            m.spec_first_out() == original_first_out@,
            m.spec_head() == original_head@,
            m.spec_travel_time() == original_travel_time@,
            m.spec_arc_of() == original_arc_id_of_lg_node@,
    {
        let original_tail = tails_from_first_out(&original_first_out);
        LineGraphMapping { original_first_out, original_tail, original_head, original_travel_time, original_arc_id_of_lg_node }
    }

    /// The original arc of a line-graph node.
    pub fn original_arc_id(&self, lg_node: u32) -> (arc: usize)
        requires
            self.wf(),
            (lg_node as int) < self.spec_arc_of().len(),
        ensures
            arc == self.spec_arc_of()[lg_node as int],
            arc < self.spec_head().len(),
    {
        self.original_arc_id_of_lg_node[lg_node as usize] as usize
    }

    /// The original node a line-graph node leaves from.
    pub fn lg_tail_node(&self, lg_node: u32) -> (node: u32)
        requires
            self.wf(),
            (lg_node as int) < self.spec_arc_of().len(),
            self.has_tail(lg_node),
        ensures
            node == self.spec_tail()[self.spec_arc_of()[lg_node as int] as int],
    {
        self.original_tail[self.original_arc_id(lg_node)]
    }

    /// The original node a line-graph node leads to.
    pub fn lg_head_node(&self, lg_node: u32) -> (node: u32)
        requires
            self.wf(),
            (lg_node as int) < self.spec_arc_of().len(),
        ensures
            node == self.spec_head()[self.spec_arc_of()[lg_node as int] as int],
    {
        self.original_head[self.original_arc_id(lg_node)]
    }

    /// The travel time of the original arc of a line-graph node.
    pub fn lg_travel_time(&self, lg_node: u32) -> (w: u32)
        requires
            self.wf(),
            (lg_node as int) < self.spec_arc_of().len(),
        ensures
            w == self.spec_travel_time()[self.spec_arc_of()[lg_node as int] as int],
    {
        self.original_travel_time[self.original_arc_id(lg_node)]
    }

    /// The original arc `edge_id` has an arc back from its head to its tail.
    pub open spec fn spec_has_reverse(&self, edge_id: int) -> bool {
        let tail = self.spec_tail()[edge_id];
        let head = self.spec_head()[edge_id];
        exists|e: int|
            self.spec_first_out()[head as int] <= e < self.spec_first_out()[head as int + 1] && #[trigger] self.spec_head()[e]
                == tail
    }

    /// Whether the original arc `edge_id` can be driven back.
    pub fn has_reverse_edge(&self, edge_id: u32) -> (b: bool)
        requires
            self.wf(),
            (edge_id as int) < self.spec_tail().len(),
            (self.spec_head()[edge_id as int] as int) < self.spec_first_out().len() - 1,
        ensures
            b == self.spec_has_reverse(edge_id as int),
    {
        let tail = self.original_tail[edge_id as usize];
        let head = self.original_head[edge_id as usize];
        let num_offsets = self.original_first_out.len();
        proof {
            assert((head as int) < self.spec_first_out().len() - 1);
            assert(self.spec_first_out()[head as int + 1] <= self.spec_first_out()[self.spec_first_out().len() - 1]);
        }
        let start = self.original_first_out[head as usize];
        let end = self.original_first_out[head as usize + 1];
        let mut e = start;
        while e < end
            invariant
                start <= e <= end || (start > end && e == start),
                end <= self.original_head@.len(),
                start == self.spec_first_out()[head as int],
                end == self.spec_first_out()[head as int + 1],
                tail == self.spec_tail()[edge_id as int],
                head == self.spec_head()[edge_id as int],
                forall|f: int| start <= f < e ==> self.original_head@[f] != tail,
            decreases end - e,
        {
            if self.original_head[e as usize] == tail {
                proof {
                    assert(self.spec_head()[e as int] == tail);
                }
                return true;
            }
            e = e + 1;
        }
        false
    }

    /// The line-graph nodes whose original arcs a path reports: all of them,
    /// or for a trimmed path all but its first and last.
    pub open spec fn effective(lg_path: Seq<u32>, trimmed: bool) -> Seq<u32> {
        if trimmed && lg_path.len() > 2 {
            lg_path.subrange(1, lg_path.len() - 1)
        } else if trimmed {
            Seq::empty()
        } else {
            lg_path
        }
    }

    /// The original node path of a line-graph path: the tail of every
    /// effective node's arc, then the head where the path ends.
    pub open spec fn node_path(&self, lg_path: Seq<u32>, trimmed: bool) -> Seq<u32> {
        let eff = Self::effective(lg_path, trimmed);
        let tails = Seq::new(eff.len(), |i: int| self.spec_tail()[self.spec_arc_of()[eff[i] as int] as int]);
        if trimmed {
            if eff.len() > 0 {
                tails.push(self.spec_head()[self.spec_arc_of()[eff.last() as int] as int])
            } else if lg_path.len() >= 2 {
                tails.push(self.spec_head()[self.spec_arc_of()[lg_path[0] as int] as int])
            } else {
                tails
            }
        } else {
            tails.push(self.spec_head()[self.spec_arc_of()[lg_path.last() as int] as int])
        }
    }

    /// Maps a non-empty line-graph path to its original arcs, its node ids
    /// and its original node path.
    pub fn materialize_lg_path(&self, lg_path: &Vec<u32>, trimmed: bool) -> (res: Option<MaterializedPath>)
        requires
            self.wf(),
            all_below(lg_path@, self.spec_arc_of().len() as int),
            forall|i: int| 0 <= i < Self::effective(lg_path@, trimmed).len() ==> self.has_tail(#[trigger] Self::effective(lg_path@, trimmed)[i]),
        ensures
            lg_path@.len() == 0 <==> res is None,
            res matches Some(m) ==> {
                let eff = Self::effective(lg_path@, trimmed);
                &&& m.route_arc_ids@ == Seq::new(eff.len(), |i: int| self.spec_arc_of()[eff[i] as int])
                &&& m.weight_path_ids@ == lg_path@
                &&& m.path@ == self.node_path(lg_path@, trimmed)
            },
            !trimmed ==> (res matches Some(m) ==> {
                let n = lg_path@.len() as int;
                &&& m.route_arc_ids@.len() == n
                &&& forall|i: int| 0 <= i < n ==> #[trigger] m.route_arc_ids@[i] == self.spec_arc_of()[lg_path@[i] as int]
                &&& m.path@.len() == n + 1
                &&& forall|i: int| 0 <= i < n ==> #[trigger] m.path@[i] == self.spec_tail()[self.spec_arc_of()[lg_path@[i] as int] as int]
                &&& m.path@[n] == self.spec_head()[self.spec_arc_of()[lg_path@[n - 1] as int] as int]
            }),
            trimmed && lg_path@.len() > 2 ==> (res matches Some(m) ==> {
                let n = lg_path@.len() as int;
                &&& m.route_arc_ids@.len() == n - 2
                &&& forall|i: int| 0 <= i < n - 2 ==> #[trigger] m.route_arc_ids@[i] == self.spec_arc_of()[lg_path@[i + 1] as int]
                &&& m.path@.len() == n - 1
                &&& forall|i: int| 0 <= i < n - 2 ==> #[trigger] m.path@[i] == self.spec_tail()[self.spec_arc_of()[lg_path@[i + 1] as int] as int]
                &&& m.path@[n - 2] == self.spec_head()[self.spec_arc_of()[lg_path@[n - 2] as int] as int]
            }),
            trimmed && lg_path@.len() <= 2 ==> (res matches Some(m) ==> {
                &&& m.route_arc_ids@.len() == 0
                &&& lg_path@.len() == 2 ==> m.path@ == seq![self.spec_head()[self.spec_arc_of()[lg_path@[0] as int] as int]]
                &&& lg_path@.len() == 1 ==> m.path@.len() == 0
            }),
    {
        let n = lg_path.len();
        if n == 0 {
            return None;
        }
        let (lo, hi) = if trimmed && n > 2 {
            (1, n - 1)
        } else if trimmed {
            (0, 0)
        } else {
            (0, n)
        };
        let ghost eff = Self::effective(lg_path@, trimmed);
        proof {
            assert(eff =~= lg_path@.subrange(lo as int, hi as int));
        }
        let mut route_arc_ids: Vec<u32> = Vec::new();
        let mut path: Vec<u32> = Vec::new();
        let mut i = lo;
        while i < hi
            invariant
                self.wf(),
                all_below(lg_path@, self.spec_arc_of().len() as int),
                forall|k: int| 0 <= k < eff.len() ==> self.has_tail(#[trigger] eff[k]),
                lo <= i <= hi,
                hi <= lg_path@.len(),
                eff == lg_path@.subrange(lo as int, hi as int),
                route_arc_ids@ == Seq::new(eff.len(), |k: int| self.spec_arc_of()[eff[k] as int]).take(i - lo),
                path@ == Seq::new(eff.len(), |k: int| self.spec_tail()[self.spec_arc_of()[eff[k] as int] as int]).take(i - lo),
            decreases hi - i,
        {
            let node = lg_path[i];
            proof {
                assert(eff[i - lo] == node);
            }
            let arc = self.original_arc_id(node);
            route_arc_ids.push(arc as u32);
            path.push(self.lg_tail_node(node));
            proof {
                let ra = Seq::new(eff.len(), |k: int| self.spec_arc_of()[eff[k] as int]);
                let pa = Seq::new(eff.len(), |k: int| self.spec_tail()[self.spec_arc_of()[eff[k] as int] as int]);
                assert(eff[i - lo] == node);
                assert(ra.take(i - lo + 1) =~= ra.take(i - lo).push(ra[i - lo]));
                assert(pa.take(i - lo + 1) =~= pa.take(i - lo).push(pa[i - lo]));
            }
            i = i + 1;
        }
        let ghost tails = Seq::new(eff.len(), |k: int| self.spec_tail()[self.spec_arc_of()[eff[k] as int] as int]);
        proof {
            let ra = Seq::new(eff.len(), |k: int| self.spec_arc_of()[eff[k] as int]);
            assert(ra.take(hi - lo) =~= ra);
            assert(tails.take(hi - lo) =~= tails);
        }
        if trimmed {
            if hi > lo {
                path.push(self.lg_head_node(lg_path[hi - 1]));
                proof {
                    assert(eff.last() == lg_path@[hi - 1]);
                }
            } else if n >= 2 {
                path.push(self.lg_head_node(lg_path[0]));
            }
        } else {
            path.push(self.lg_head_node(lg_path[n - 1]));
        }
        proof {
            lemma_effective_parts(lg_path@);
        }
        Some(MaterializedPath { route_arc_ids, weight_path_ids: copy_ids(lg_path), path })
    }

    /// The travel time of a line-graph query answer: the CCH distance plus the
    /// travel time of the source arc (which the line-graph weights leave
    /// out), saturating; `None` when the target is unreachable.
    pub fn source_corrected_distance(&self, cch_distance: u32, source_edge: u32) -> (res: Option<u32>)
        requires
            self.wf(),
            (source_edge as int) < self.spec_arc_of().len(),
        ensures
            cch_distance >= INFINITY ==> res is None,
            cch_distance < INFINITY ==> res == Some(
                sat_add(cch_distance, self.spec_travel_time()[self.spec_arc_of()[source_edge as int] as int]),
            ),
    {
        if cch_distance >= INFINITY {
            return None;
        }
        Some(cch_distance.saturating_add(self.lg_travel_time(source_edge)))
    }
}

/// What a path reports of a line-graph path: all of it untrimmed; trimmed,
/// its interior (all nodes but the first and the last) in order, or nothing
/// for a path of at most two nodes.
pub proof fn lemma_effective_parts(lg_path: Seq<u32>)
    ensures
        LineGraphMapping::effective(lg_path, false) == lg_path,
        lg_path.len() > 2 ==> LineGraphMapping::effective(lg_path, true).len() == lg_path.len() - 2,
        lg_path.len() > 2 ==> forall|i: int|
            0 <= i < lg_path.len() - 2 ==> #[trigger] LineGraphMapping::effective(lg_path, true)[i] == lg_path[i + 1],
        lg_path.len() <= 2 ==> LineGraphMapping::effective(lg_path, true).len() == 0,
{
}

} // verus!
