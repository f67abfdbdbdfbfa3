//! Assembling the routing contexts of a server from loaded arrays: the CCH
//! of a normal graph, and the mapping data and directed CCH of a line graph.

use vstd::prelude::*;
use crate::cch::{CCH, elimination_tree_of};
use crate::cch_cache::{find_not_below, find_rank_problem, first_not_below, lemma_first_not_below_none, rank_problem_from};
use crate::contraction::{contraction_input, is_elimination_graph};
use crate::directed_cch::{DirectedCCH, all_below};
use crate::graph::{csr_wf, is_monotone, offsets_monotone};
use crate::line_graph::{
    LineGraphError, LineGraphMapping, arc_mapping, check_roundabout_flags, edge_mapping_problem, extend_arc_mapping, first_bad_mapping,
    lemma_no_bad_mapping, validate_edge_mappings,
};
use crate::node_order::{NodeOrder, is_permutation};

verus! {

/// Why loaded arrays could not be assembled into a routing context.
#[derive(Clone, Copy, Debug, PartialEq, Eq, Structural)]
pub enum ContextError {
    /// The offsets are not a CSR offset array over the heads.
    GraphNotCsr,
    /// An arc head is not a node.
    HeadOutOfRange { value: u32 },
    /// The order does not list every node once.
    OrderLength { len: usize, num_nodes: usize },
    /// The order is not a permutation of the nodes.
    OrderNotPermutation,
    /// The chordal supergraph has more arcs than 32-bit arc ids can number.
    TooManyShortcuts,
    /// The line-graph mapping data is inconsistent.
    LineGraph(LineGraphError),
}

/// A graph in CSR form that a CCH can be built over: consistent offsets
/// and heads that name nodes.
pub open spec fn graph_ok(first_out: Seq<u32>, head: Seq<u32>) -> bool {
    &&& csr_wf(first_out, head.len() as int)
    &&& first_out[0] == 0
    &&& all_below(head, first_out.len() - 1)
}

/// The first problem of a loaded graph, in the order checked.
pub open spec fn graph_problem(first_out: Seq<u32>, head: Seq<u32>) -> Option<ContextError> {
    if !(first_out.len() >= 1 && first_out[0] == 0 && first_out[first_out.len() - 1] == head.len()
        && crate::graph::offsets_monotone(first_out)) {
        Some(ContextError::GraphNotCsr)
    } else if first_not_below(head, first_out.len() - 1) is Some {
        Some(ContextError::HeadOutOfRange { value: first_not_below(head, first_out.len() - 1).unwrap() })
    } else {
        None
    }
}

/// Checks a loaded graph.
pub fn check_graph(first_out: &Vec<u32>, head: &Vec<u32>) -> (res: Result<(), ContextError>)
    ensures
        match graph_problem(first_out@, head@) {
            Some(e) => res == Err::<(), ContextError>(e),
            None => res is Ok && graph_ok(first_out@, head@),
        },
{
    if first_out.len() == 0 || first_out[0] != 0 || first_out[first_out.len() - 1] as usize != head.len() || !is_monotone(first_out) {
        return Err(ContextError::GraphNotCsr);
    }
    match find_not_below(head, first_out.len() - 1) {
        Some(value) => Err(ContextError::HeadOutOfRange { value }),
        None => {
            proof {
                lemma_first_not_below_none(head@, first_out@.len() - 1);
            }
            Ok(())
        },
    }
}

proof fn lemma_rank_problem_not_permutation(s: Seq<u32>, k: int)
    requires
        0 <= k,
        rank_problem_from(s, s.len() as int, k) is Some,
    ensures
        !is_permutation(s),
    decreases s.len() - k,
{
    if k < s.len() {
        if s[k] >= s.len() {
        } else if s.take(k).contains(s[k]) {
            let j = choose|j: int| 0 <= j < k && s.take(k)[j] == s[k];
            assert(s[j] == s[k]);
        } else {
            lemma_rank_problem_not_permutation(s, k + 1);
        }
    }
}

/// The CCH context of a normal graph: the graph, its CCH and its baseline
/// weights.
pub struct CchContext {
    pub first_out: Vec<u32>,
    pub head: Vec<u32>,
    pub travel_time: Vec<u32>,
    pub cch: CCH,
}

impl CchContext {
    /// Builds the CCH of a graph along the order `perm` (nodes by rank):
    /// checks the graph and the order, then contracts.
    pub fn load_and_build(first_out: Vec<u32>, head: Vec<u32>, travel_time: Vec<u32>, perm: Vec<u32>) -> (res: Result<CchContext, ContextError>)
        requires
            perm@.len() <= u32::MAX,
        ensures
            graph_problem(first_out@, head@) is Some ==> res == Err::<CchContext, ContextError>(graph_problem(first_out@, head@).unwrap()),
            graph_problem(first_out@, head@) is None && perm@.len() != first_out@.len() - 1 ==> res == Err::<CchContext, ContextError>(
                ContextError::OrderLength { len: perm@.len() as usize, num_nodes: (first_out@.len() - 1) as usize },
            ),
            graph_problem(first_out@, head@) is None && perm@.len() == first_out@.len() - 1 && !is_permutation(perm@) ==> res
                == Err::<CchContext, ContextError>(ContextError::OrderNotPermutation),
            res matches Ok(ctx) ==> {
                &&& ctx.first_out@ == first_out@
                &&& ctx.head@ == head@
                &&& ctx.travel_time@ == travel_time@
                &&& ctx.cch.wf()
                &&& ctx.cch.built_over(first_out@, head@)
                &&& ctx.cch.spec_order().nodes() == perm@
                &&& is_elimination_graph(first_out@, head@, ctx.cch.spec_order().rank_seq(), ctx.cch.spec_upward_lists())
            },
            res == Err::<CchContext, ContextError>(ContextError::TooManyShortcuts) ==> graph_ok(first_out@, head@) && is_permutation(perm@),
            graph_ok(first_out@, head@) && is_permutation(perm@) && perm@.len() == first_out@.len() - 1 ==> res is Ok || res == Err::<CchContext, ContextError>(ContextError::TooManyShortcuts),
    {
        match check_graph(&first_out, &head) {
            Err(e) => {
                proof {
                    if first_out@.len() >= 1 {
                        lemma_first_not_below_none(head@, first_out@.len() - 1);
                    }
                }
                return Err(e);
            },
            Ok(()) => {},
        }
        let n = first_out.len() - 1;
        if perm.len() != n {
            return Err(ContextError::OrderLength { len: perm.len(), num_nodes: n });
        }
        match find_rank_problem(&perm, n) {
            Some(_) => {
                proof {
                    lemma_rank_problem_not_permutation(perm@, 0);
                }
                return Err(ContextError::OrderNotPermutation);
            },
            None => {},
        }
        let order = NodeOrder::from_node_order(perm);
        match CCH::fix_order_and_build(&first_out, &head, order) {
            Some(cch) => Ok(CchContext { first_out, head, travel_time, cch }),
            None => Err(ContextError::TooManyShortcuts),
        }
    }
}

/// A cached directed CCH is used only when all its arc maps name arcs of
/// the metric; otherwise it must be rebuilt.
pub fn usable_cached_cch(cached: Option<DirectedCCH>, num_metric_edges: usize) -> (res: Option<DirectedCCH>)
    ensures
        match cached {
            Some(d) => if first_bad_mapping(d.spec_forward_orig(), num_metric_edges as int, 0) is None && first_bad_mapping(
                d.spec_backward_orig(),
                num_metric_edges as int,
                0,
            ) is None {
                res == Some(d)
            } else {
                res is None
            },
            None => res is None,
        },
{
    match cached {
        Some(d) => match validate_edge_mappings(&d, num_metric_edges) {
            Ok(()) => Some(d),
            Err(_) => None,
        },
        None => None,
    }
}

/// The context of a line-graph server: the line graph, its directed CCH,
/// the mapping back to the original graph and the roundabout flag of every
/// line-graph node.
pub struct LineGraphCchContext {
    pub first_out: Vec<u32>,
    pub head: Vec<u32>,
    pub travel_time: Vec<u32>,
    pub directed_cch: DirectedCCH,
    pub mapping: LineGraphMapping,
    pub is_arc_roundabout: Vec<u8>,
}

/// The one check the line-graph context makes of the original graph: its
/// offsets are non-empty and end at the number of arcs.
pub open spec fn sentinel_problem(first_out: Seq<u32>, head: Seq<u32>) -> Option<ContextError> {
    if first_out.len() == 0 || first_out[first_out.len() - 1] != head.len() {
        Some(ContextError::GraphNotCsr)
    } else {
        None
    }
}

impl LineGraphCchContext {
    /// Assembles the context: checks that the original offsets end at the
    /// number of original arcs (heads need not name nodes, and the first
    /// offset need not be zero: tails are counted from it), extends the node to
    /// arc map by the split map, checks the roundabout flags (all zero when
    /// none were stored), and keeps the given directed CCH once every entry of
    /// its arc maps names an arc of the line graph. A directed CCH that fails
    /// this check is refused with the first bad entry; this function does not
    /// build a replacement.
    pub fn load_and_build(
        first_out: Vec<u32>,
        head: Vec<u32>,
        travel_time: Vec<u32>,
        original_first_out: Vec<u32>,
        original_head: Vec<u32>,
        original_travel_time: Vec<u32>,
        split_map: Vec<u32>,
        is_arc_roundabout: Option<Vec<u8>>,
        directed_cch: DirectedCCH,
    ) -> (res: Result<LineGraphCchContext, ContextError>)
        requires
            first_out@.len() >= 1,
            offsets_monotone(original_first_out@),
            original_first_out@.len() - 1 <= u32::MAX,
            original_head@.len() <= u32::MAX,
            original_head@.len() + split_map@.len() <= usize::MAX,
            original_travel_time@.len() >= original_head@.len(),
        ensures
            sentinel_problem(original_first_out@, original_head@) is Some ==> res == Err::<LineGraphCchContext, ContextError>(
                sentinel_problem(original_first_out@, original_head@).unwrap(),
            ),
            sentinel_problem(original_first_out@, original_head@) is None ==> match extend_result(
                original_head@.len() as int,
                split_map@,
                first_out@.len() - 1,
            ) {
                Some(e) => res == Err::<LineGraphCchContext, ContextError>(ContextError::LineGraph(e)),
                None => match is_arc_roundabout {
                    Some(flags) if flags@.len() != first_out@.len() - 1 => res == Err::<LineGraphCchContext, ContextError>(
                        ContextError::LineGraph(
                            LineGraphError::RoundaboutLengthMismatch { len: flags@.len() as usize, num_lg_nodes: (first_out@.len() - 1) as usize },
                        ),
                    ),
                    _ => match edge_mapping_problem(directed_cch.spec_forward_orig(), directed_cch.spec_backward_orig(), head@.len() as usize) {
                        Some(e) => res == Err::<LineGraphCchContext, ContextError>(ContextError::LineGraph(e)),
                        None => res is Ok,
                    },
                },
            },
            res matches Ok(ctx) ==> {
                &&& ctx.first_out@ == first_out@
                &&& ctx.head@ == head@
                &&& ctx.travel_time@ == travel_time@
                &&& ctx.directed_cch == directed_cch
                &&& forall|e: int, k: int|
                    0 <= e < directed_cch.spec_forward_orig().len() && 0 <= k < directed_cch.spec_forward_orig()[e].len()
                        ==> (#[trigger] directed_cch.spec_forward_orig()[e][k] as int) < head@.len()
                &&& forall|e: int, k: int|
                    0 <= e < directed_cch.spec_backward_orig().len() && 0 <= k < directed_cch.spec_backward_orig()[e].len()
                        ==> (#[trigger] directed_cch.spec_backward_orig()[e][k] as int) < head@.len()
                &&& ctx.mapping.wf()
                &&& ctx.mapping.spec_first_out() == original_first_out@
                &&& ctx.mapping.spec_head() == original_head@
                &&& ctx.mapping.spec_travel_time() == original_travel_time@
                &&& ctx.mapping.spec_arc_of() == arc_mapping(original_head@.len() as int, split_map@)
                &&& ctx.is_arc_roundabout@ == match is_arc_roundabout {
                    Some(flags) => flags@,
                    None => Seq::new((first_out@.len() - 1) as nat, |i: int| 0u8),
                }
            },
    {
        if original_first_out.len() == 0 || original_first_out[original_first_out.len() - 1] as usize != original_head.len() {
            return Err(ContextError::GraphNotCsr);
        }
        let num_lg_nodes = first_out.len() - 1;
        let map = match extend_arc_mapping(original_head.len(), &split_map, num_lg_nodes) {
            Ok(m) => m,
            Err(e) => {
                return Err(ContextError::LineGraph(e));
            },
        };
        let flags = match is_arc_roundabout {
            Some(f) => f,
            None => {
                let mut zeros: Vec<u8> = Vec::new();
                let mut i: usize = 0;
                while i < num_lg_nodes
                    invariant
                        i <= num_lg_nodes,
                        zeros@ == Seq::new(i as nat, |j: int| 0u8),
                    decreases num_lg_nodes - i,
                {
                    zeros.push(0);
                    proof {
                        assert(zeros@ =~= Seq::new((i + 1) as nat, |j: int| 0u8));
                    }
                    i = i + 1;
                }
                zeros
            },
        };
        match check_roundabout_flags(flags.len(), num_lg_nodes) {
            Err(e) => {
                return Err(ContextError::LineGraph(e));
            },
            Ok(()) => {},
        }
        match validate_edge_mappings(&directed_cch, head.len()) {
            Err(e) => {
                return Err(ContextError::LineGraph(e));
            },
            Ok(()) => {},
        }
        proof {
            lemma_no_bad_mapping(directed_cch.spec_forward_orig(), head@.len() as int, 0);
            lemma_no_bad_mapping(directed_cch.spec_backward_orig(), head@.len() as int, 0);
            lemma_first_not_below_none(split_map@, original_head@.len() as int);
            let m = arc_mapping(original_head@.len() as int, split_map@);
            assert forall|k: int| 0 <= k < m.len() implies (#[trigger] m[k] as int) < original_head@.len() by {
                if k >= original_head@.len() {
                    assert(m[k] == split_map@[k - original_head@.len()]);
                }
            }
        }
        let mapping = LineGraphMapping::new(original_first_out, original_head, original_travel_time, map);
        Ok(LineGraphCchContext { first_out, head, travel_time, directed_cch, mapping, is_arc_roundabout: flags })
    }
}

/// What extending the node to arc map reports: the first problem, if any.
pub open spec fn extend_result(num_original_edges: int, split_map: Seq<u32>, num_lg_nodes: int) -> Option<LineGraphError> {
    match first_not_below(split_map, num_original_edges) {
        Some(original) => Some(LineGraphError::SplitMapOutOfRange { original, num_original_edges: num_original_edges as usize }),
        None => if num_original_edges + split_map.len() != num_lg_nodes {
            Some(LineGraphError::MappingLengthMismatch { len: (num_original_edges + split_map.len()) as usize, num_lg_nodes: num_lg_nodes as usize })
        } else {
            None
        },
    }
}

} // verus!
