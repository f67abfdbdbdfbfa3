//! Storing a [`DirectedCCH`] as flat arrays and reassembling it with full
//! validation of every loaded array.

use vstd::prelude::*;
use crate::cch::{CCHT, ReversedGraph, flatten_upward, prefix_total, tree_points_up, upward_lists};
use crate::contraction::sets;
use crate::directed_cch::{DirectedCCH, all_below, direction_bounds, reversed_bounds};
use crate::graph::{copy_ids, csr_wf, is_monotone, offsets_monotone};
use crate::node_order::{NodeOrder, are_inverse, is_permutation, lemma_ranks_determine_order};

verus! {

/// The sentinel that encodes "no parent" in a stored elimination tree.
pub const NO_PARENT: u32 = 4294967295u32;

/// Which half of a directed CCH a check is about.
#[derive(Clone, Copy, Debug, PartialEq, Eq, Structural)]
pub enum Direction {
    Forward,
    Backward,
}

/// Why a stored directed CCH was rejected.
#[derive(Clone, Copy, Debug, PartialEq, Eq, Structural)]
pub enum CacheError {
    /// The offset array is empty.
    FirstOutEmpty { dir: Direction },
    /// The offset array does not start at zero.
    FirstOutStart { dir: Direction },
    /// The last offset differs from the number of heads.
    Sentinel { dir: Direction, sentinel: u32, head_len: usize },
    /// The offsets decrease somewhere.
    NotMonotone { dir: Direction },
    /// Heads and tails differ in number.
    TailLen { dir: Direction },
    /// Forward and backward offsets differ in length (different node counts).
    FirstOutLenMismatch,
    /// A head is not a node.
    HeadOutOfRange { dir: Direction, value: u32, num_nodes: usize },
    /// A tail is not a node.
    TailOutOfRange { dir: Direction, value: u32, num_nodes: usize },
    /// The arc map offsets do not have one entry per arc plus one.
    EdgeMapIdxLen { dir: Direction, len: usize, expected: usize },
    /// The arc map offsets are not an offset array over the arc map data.
    EdgeMapLayout { dir: Direction },
    /// The reversed graph offsets do not have one entry per node plus one.
    InvertedFirstOutLen { dir: Direction, len: usize, expected: usize },
    /// The reversed graph does not have one entry per arc.
    InvertedHeadLen { dir: Direction, len: usize, expected: usize },
    /// A reversed graph entry names no node.
    InvertedHeadOutOfRange { dir: Direction, value: u32, num_nodes: usize },
    /// The reversed graph does not have one arc id per entry.
    InvertedEdgeIdsLen { dir: Direction, len: usize, expected: usize },
    /// A reversed graph entry names no arc.
    InvertedEdgeIdOutOfRange { dir: Direction, value: u32, num_edges: usize },
    /// The reversed graph offsets are not an offset array over its entries.
    InvertedLayout { dir: Direction },
    /// The elimination tree does not have one entry per node.
    EliminationTreeLen { len: usize, expected: usize },
    /// A parent in the elimination tree is not a node.
    EliminationTreeParentOutOfRange { parent: u32, num_nodes: usize },
    /// The ranks do not have one entry per node.
    RanksLen { len: usize, expected: usize },
    /// A rank is not below the node count.
    RankOutOfRange { rank: u32 },
    /// A rank occurs twice.
    RankDuplicate { rank: u32 },
    /// A parent in the elimination tree does not have a higher rank than its
    /// child.
    EliminationTreeOrder { node: usize, parent: u32 },
}

/// The flat arrays a directed CCH is stored as.
pub struct DirectedCchParts {
    pub forward_first_out: Vec<u32>,
    pub forward_head: Vec<u32>,
    pub forward_tail: Vec<u32>,
    pub backward_first_out: Vec<u32>,
    pub backward_head: Vec<u32>,
    pub backward_tail: Vec<u32>,
    pub fw_edge_to_orig_idx: Vec<u32>,
    pub fw_edge_to_orig_data: Vec<u32>,
    pub bw_edge_to_orig_idx: Vec<u32>,
    pub bw_edge_to_orig_data: Vec<u32>,
    pub fw_inverted_first_out: Vec<u32>,
    pub fw_inverted_head: Vec<u32>,
    pub fw_inverted_edge_ids: Vec<u32>,
    pub bw_inverted_first_out: Vec<u32>,
    pub bw_inverted_head: Vec<u32>,
    pub bw_inverted_edge_ids: Vec<u32>,
    pub elimination_tree: Vec<u32>,
    pub ranks: Vec<u32>,
}

/// The first entry of `s` that is not below `bound`, if any.
pub open spec fn first_not_below(s: Seq<u32>, bound: int) -> Option<u32>
    decreases s.len(),
{
    if s.len() == 0 {
        None
    } else if s[0] >= bound {
        Some(s[0])
    } else {
        first_not_below(s.drop_first(), bound)
    }
}

/// The first stored parent (entry other than the sentinel) that is not
/// below `bound`, if any.
pub open spec fn first_bad_parent(s: Seq<u32>, bound: int) -> Option<u32>
    decreases s.len(),
{
    if s.len() == 0 {
        None
    } else if s[0] != NO_PARENT && s[0] >= bound {
        Some(s[0])
    } else {
        first_bad_parent(s.drop_first(), bound)
    }
}

/// Checks of one half's offsets, heads and tails, in order.
pub open spec fn direction_error(dir: Direction, first_out: Seq<u32>, head: Seq<u32>, tail: Seq<u32>) -> Option<CacheError> {
    if first_out.len() == 0 {
        Some(CacheError::FirstOutEmpty { dir })
    } else if first_out[0] != 0 {
        Some(CacheError::FirstOutStart { dir })
    } else if first_out[first_out.len() - 1] != head.len() {
        Some(CacheError::Sentinel { dir, sentinel: first_out[first_out.len() - 1], head_len: head.len() as usize })
    } else if !offsets_monotone(first_out) {
        Some(CacheError::NotMonotone { dir })
    } else if head.len() != tail.len() {
        Some(CacheError::TailLen { dir })
    } else {
        None
    }
}

/// Heads and tails of one half name nodes.
pub open spec fn endpoint_error(dir: Direction, head: Seq<u32>, tail: Seq<u32>, n: int) -> Option<CacheError> {
    if first_not_below(head, n) is Some {
        Some(CacheError::HeadOutOfRange { dir, value: first_not_below(head, n).unwrap(), num_nodes: n as usize })
    } else if first_not_below(tail, n) is Some {
        Some(CacheError::TailOutOfRange { dir, value: first_not_below(tail, n).unwrap(), num_nodes: n as usize })
    } else {
        None
    }
}

/// `idx` is an offset array over `data`.
pub open spec fn lists_layout(idx: Seq<u32>, data: Seq<u32>) -> bool {
    &&& idx.len() >= 1
    &&& idx[0] == 0
    &&& offsets_monotone(idx)
    &&& idx[idx.len() - 1] == data.len()
}

/// The arc map of one half has one list per arc.
pub open spec fn edge_map_error(dir: Direction, idx: Seq<u32>, data: Seq<u32>, m: int) -> Option<CacheError> {
    if idx.len() != m + 1 {
        Some(CacheError::EdgeMapIdxLen { dir, len: idx.len() as usize, expected: (m + 1) as usize })
    } else if !lists_layout(idx, data) {
        Some(CacheError::EdgeMapLayout { dir })
    } else {
        None
    }
}

/// The reversed graph of one half is index consistent.
pub open spec fn inverted_error(
    dir: Direction,
    first_out: Seq<u32>,
    head: Seq<u32>,
    edge_ids: Seq<u32>,
    n: int,
    m: int,
) -> Option<CacheError> {
    if first_out.len() != n + 1 {
        Some(CacheError::InvertedFirstOutLen { dir, len: first_out.len() as usize, expected: (n + 1) as usize })
    } else if head.len() != m {
        Some(CacheError::InvertedHeadLen { dir, len: head.len() as usize, expected: m as usize })
    } else if first_not_below(head, n) is Some {
        Some(CacheError::InvertedHeadOutOfRange { dir, value: first_not_below(head, n).unwrap(), num_nodes: n as usize })
    } else if edge_ids.len() != m {
        Some(CacheError::InvertedEdgeIdsLen { dir, len: edge_ids.len() as usize, expected: m as usize })
    } else if first_not_below(edge_ids, m) is Some {
        Some(CacheError::InvertedEdgeIdOutOfRange { dir, value: first_not_below(edge_ids, m).unwrap(), num_edges: m as usize })
    } else if !csr_wf(first_out, head.len() as int) {
        Some(CacheError::InvertedLayout { dir })
    } else {
        None
    }
}

/// The first rank problem at or after position `k`: `(true, r)` for a rank
/// `r` out of range, `(false, r)` for a repeated rank.
pub open spec fn rank_problem_from(ranks: Seq<u32>, n: int, k: int) -> Option<(bool, u32)>
    decreases ranks.len() - k,
{
    if k < 0 || k >= ranks.len() {
        None
    } else if ranks[k] >= n {
        Some((true, ranks[k]))
    } else if ranks.take(k).contains(ranks[k]) {
        Some((false, ranks[k]))
    } else {
        rank_problem_from(ranks, n, k + 1)
    }
}

/// The first node at or after `k` whose stored parent is not above it.
pub open spec fn tree_order_problem_from(tree: Seq<u32>, k: int) -> Option<(int, u32)>
    decreases tree.len() - k,
{
    if k < 0 || k >= tree.len() {
        None
    } else if tree[k] != NO_PARENT && tree[k] <= k {
        Some((k, tree[k]))
    } else {
        tree_order_problem_from(tree, k + 1)
    }
}

/// The verdict of validating stored parts: the first failing check in the
/// order the loader performs them, or `None` when all pass.
pub open spec fn parts_error(p: &DirectedCchParts) -> Option<CacheError> {
    let n = p.forward_first_out@.len() - 1;
    let mf = p.forward_head@.len() as int;
    let mb = p.backward_head@.len() as int;
    if direction_error(Direction::Forward, p.forward_first_out@, p.forward_head@, p.forward_tail@) is Some {
        direction_error(Direction::Forward, p.forward_first_out@, p.forward_head@, p.forward_tail@)
    } else if direction_error(Direction::Backward, p.backward_first_out@, p.backward_head@, p.backward_tail@) is Some {
        direction_error(Direction::Backward, p.backward_first_out@, p.backward_head@, p.backward_tail@)
    } else if p.forward_first_out@.len() != p.backward_first_out@.len() {
        Some(CacheError::FirstOutLenMismatch)
    } else if endpoint_error(Direction::Forward, p.forward_head@, p.forward_tail@, n) is Some {
        endpoint_error(Direction::Forward, p.forward_head@, p.forward_tail@, n)
    } else if endpoint_error(Direction::Backward, p.backward_head@, p.backward_tail@, n) is Some {
        endpoint_error(Direction::Backward, p.backward_head@, p.backward_tail@, n)
    } else if edge_map_error(Direction::Forward, p.fw_edge_to_orig_idx@, p.fw_edge_to_orig_data@, mf) is Some {
        edge_map_error(Direction::Forward, p.fw_edge_to_orig_idx@, p.fw_edge_to_orig_data@, mf)
    } else if edge_map_error(Direction::Backward, p.bw_edge_to_orig_idx@, p.bw_edge_to_orig_data@, mb) is Some {
        edge_map_error(Direction::Backward, p.bw_edge_to_orig_idx@, p.bw_edge_to_orig_data@, mb)
    } else if inverted_error(
        Direction::Forward,
        p.fw_inverted_first_out@,
        p.fw_inverted_head@,
        p.fw_inverted_edge_ids@,
        n,
        mf,
    ) is Some {
        inverted_error(Direction::Forward, p.fw_inverted_first_out@, p.fw_inverted_head@, p.fw_inverted_edge_ids@, n, mf)
    } else if inverted_error(
        Direction::Backward,
        p.bw_inverted_first_out@,
        p.bw_inverted_head@,
        p.bw_inverted_edge_ids@,
        n,
        mb,
    ) is Some {
        inverted_error(Direction::Backward, p.bw_inverted_first_out@, p.bw_inverted_head@, p.bw_inverted_edge_ids@, n, mb)
    } else if p.elimination_tree@.len() != n {
        Some(CacheError::EliminationTreeLen { len: p.elimination_tree@.len() as usize, expected: n as usize })
    } else if first_bad_parent(p.elimination_tree@, n) is Some {
        Some(CacheError::EliminationTreeParentOutOfRange { parent: first_bad_parent(p.elimination_tree@, n).unwrap(), num_nodes: n as usize })
    } else if p.ranks@.len() != n {
        Some(CacheError::RanksLen { len: p.ranks@.len() as usize, expected: n as usize })
    } else if rank_problem_from(p.ranks@, n, 0) is Some {
        let (out, r) = rank_problem_from(p.ranks@, n, 0).unwrap();
        if out {
            Some(CacheError::RankOutOfRange { rank: r })
        } else {
            Some(CacheError::RankDuplicate { rank: r })
        }
    } else if tree_order_problem_from(p.elimination_tree@, 0) is Some {
        let (x, parent) = tree_order_problem_from(p.elimination_tree@, 0).unwrap();
        Some(CacheError::EliminationTreeOrder { node: x as usize, parent })
    } else {
        None
    }
}

/// The stored form of an elimination tree: the parent, or the sentinel for a
/// root.
pub open spec fn tree_to_raw_spec(tree: Seq<Option<u32>>) -> Seq<u32> {
    Seq::new(tree.len(), |x: int| match tree[x] {
        Some(p) => p,
        None => NO_PARENT,
    })
}

/// The elimination tree a stored array encodes.
pub open spec fn tree_from_raw_spec(raw: Seq<u32>) -> Seq<Option<u32>> {
    Seq::new(raw.len(), |x: int| if raw[x] == NO_PARENT { None } else { Some(raw[x]) })
}


/// What a directed CCH loaded from `p` holds: the stored arrays as they
/// are, the arc maps split at their offsets, the decoded elimination tree
/// and the ranks.
pub open spec fn loaded_from(d: &DirectedCCH, p: &DirectedCchParts) -> bool {
    &&& d.spec_forward_first_out() == p.forward_first_out@
    &&& d.spec_forward_head() == p.forward_head@
    &&& d.spec_forward_tail() == p.forward_tail@
    &&& d.spec_backward_first_out() == p.backward_first_out@
    &&& d.spec_backward_head() == p.backward_head@
    &&& d.spec_backward_tail() == p.backward_tail@
    &&& d.spec_forward_orig() == upward_lists(p.fw_edge_to_orig_idx@, p.fw_edge_to_orig_data@)
    &&& d.spec_backward_orig() == upward_lists(p.bw_edge_to_orig_idx@, p.bw_edge_to_orig_data@)
    &&& d.spec_forward_inverted().spec_first_out() == p.fw_inverted_first_out@
    &&& d.spec_forward_inverted().spec_head() == p.fw_inverted_head@
    &&& d.spec_forward_inverted().spec_edge_ids() == p.fw_inverted_edge_ids@
    &&& d.spec_backward_inverted().spec_first_out() == p.bw_inverted_first_out@
    &&& d.spec_backward_inverted().spec_head() == p.bw_inverted_head@
    &&& d.spec_backward_inverted().spec_edge_ids() == p.bw_inverted_edge_ids@
    &&& d.spec_elimination_tree() == tree_from_raw_spec(p.elimination_tree@)
    &&& d.spec_order().rank_seq() == p.ranks@
}

proof fn lemma_first_not_below_skip(s: Seq<u32>, b: int, i: int)
    requires
        0 <= i <= s.len(),
        forall|k: int| 0 <= k < i ==> (#[trigger] s[k] as int) < b,
    ensures
        first_not_below(s, b) == first_not_below(s.skip(i), b),
    decreases i,
{
    if i > 0 {
        lemma_first_not_below_skip(s, b, i - 1);
        assert(s.skip(i - 1).drop_first() =~= s.skip(i));
        assert(s.skip(i - 1)[0] == s[i - 1]);
    } else {
        assert(s.skip(0) =~= s);
    }
}

pub proof fn lemma_first_not_below_none(s: Seq<u32>, b: int)
    ensures
        first_not_below(s, b) is None <==> all_below(s, b),
    decreases s.len(),
{
    if s.len() > 0 {
        lemma_first_not_below_none(s.drop_first(), b);
        if all_below(s, b) {
            assert forall|k: int| 0 <= k < s.drop_first().len() implies (#[trigger] s.drop_first()[k] as int) < b by {
                assert(s.drop_first()[k] == s[k + 1]);
            }
        }
        if first_not_below(s, b) is None {
            assert forall|k: int| 0 <= k < s.len() implies (#[trigger] s[k] as int) < b by {
                if k > 0 {
                    assert(s[k] == s.drop_first()[k - 1]);
                }
            }
        }
    }
}

/// The first entry of `s` at or above `bound`, if any.
pub fn find_not_below(s: &Vec<u32>, bound: usize) -> (res: Option<u32>)
    ensures
        res == first_not_below(s@, bound as int),
{
    let mut i: usize = 0;
    while i < s.len()
        invariant
            i <= s@.len(),
            forall|k: int| 0 <= k < i ==> (#[trigger] s@[k] as int) < bound,
        decreases s@.len() - i,
    {
        if s[i] as usize >= bound {
            proof {
                lemma_first_not_below_skip(s@, bound as int, i as int);
                assert(s@.skip(i as int)[0] == s@[i as int]);
            }
            return Some(s[i]);
        }
        i = i + 1;
    }
    proof {
        lemma_first_not_below_none(s@, bound as int);
    }
    None
}

proof fn lemma_first_bad_parent_skip(s: Seq<u32>, b: int, i: int)
    requires
        0 <= i <= s.len(),
        forall|k: int| 0 <= k < i ==> #[trigger] s[k] == NO_PARENT || (s[k] as int) < b,
    ensures
        first_bad_parent(s, b) == first_bad_parent(s.skip(i), b),
    decreases i,
{
    if i > 0 {
        lemma_first_bad_parent_skip(s, b, i - 1);
        assert(s.skip(i - 1).drop_first() =~= s.skip(i));
        assert(s.skip(i - 1)[0] == s[i - 1]);
    } else {
        assert(s.skip(0) =~= s);
    }
}

proof fn lemma_first_bad_parent_none(s: Seq<u32>, b: int)
    ensures
        first_bad_parent(s, b) is None <==> forall|k: int| 0 <= k < s.len() ==> #[trigger] s[k] == NO_PARENT || (s[k] as int) < b,
    decreases s.len(),
{
    if s.len() > 0 {
        lemma_first_bad_parent_none(s.drop_first(), b);
        if forall|k: int| 0 <= k < s.len() ==> #[trigger] s[k] == NO_PARENT || (s[k] as int) < b {
            assert forall|k: int| 0 <= k < s.drop_first().len() implies #[trigger] s.drop_first()[k] == NO_PARENT || (s.drop_first()[k] as int) < b by {
                assert(s.drop_first()[k] == s[k + 1]);
            }
        }
        if first_bad_parent(s, b) is None {
            assert forall|k: int| 0 <= k < s.len() implies #[trigger] s[k] == NO_PARENT || (s[k] as int) < b by {
                if k > 0 {
                    assert(s[k] == s.drop_first()[k - 1]);
                }
            }
        }
    }
}

/// The first stored parent at or above `bound`, if any.
pub fn find_bad_parent(s: &Vec<u32>, bound: usize) -> (res: Option<u32>)
    ensures
        res == first_bad_parent(s@, bound as int),
{
    let mut i: usize = 0;
    while i < s.len()
        invariant
            i <= s@.len(),
            forall|k: int| 0 <= k < i ==> #[trigger] s@[k] == NO_PARENT || (s@[k] as int) < bound,
        decreases s@.len() - i,
    {
        if s[i] != NO_PARENT && s[i] as usize >= bound {
            proof {
                lemma_first_bad_parent_skip(s@, bound as int, i as int);
                assert(s@.skip(i as int)[0] == s@[i as int]);
            }
            return Some(s[i]);
        }
        i = i + 1;
    }
    proof {
        lemma_first_bad_parent_none(s@, bound as int);
    }
    None
}

proof fn lemma_tree_order_none(tree: Seq<u32>, k: int)
    requires
        0 <= k <= tree.len(),
        tree_order_problem_from(tree, k) is None,
    ensures
        forall|x: int| k <= x < tree.len() ==> #[trigger] tree[x] == NO_PARENT || tree[x] > x,
    decreases tree.len() - k,
{
    if k < tree.len() {
        lemma_tree_order_none(tree, k + 1);
    }
}

/// The first node whose stored parent does not lie above it, with that parent.
pub fn find_tree_order_problem(tree: &Vec<u32>) -> (res: Option<(usize, u32)>)
    ensures
        match res {
            Some((x, p)) => tree_order_problem_from(tree@, 0) == Some((x as int, p)),
            None => tree_order_problem_from(tree@, 0) is None,
        },
{
    let mut x: usize = 0;
    while x < tree.len()
        invariant
            x <= tree@.len(),
            tree_order_problem_from(tree@, 0) == tree_order_problem_from(tree@, x as int),
        decreases tree@.len() - x,
    {
        let p = tree[x];
        if p != NO_PARENT && (p as usize) <= x {
            return Some((x, p));
        }
        x = x + 1;
    }
    None
}

proof fn lemma_rank_none(ranks: Seq<u32>, n: int, k: int)
    requires
        0 <= k <= ranks.len(),
        rank_problem_from(ranks, n, k) is None,
    ensures
        forall|x: int| k <= x < ranks.len() ==> (#[trigger] ranks[x] as int) < n && !ranks.take(x).contains(ranks[x]),
    decreases ranks.len() - k,
{
    if k < ranks.len() {
        lemma_rank_none(ranks, n, k + 1);
    }
}

/// Checks that `ranks` is a permutation of `0..n`; reports the first rank
/// that is out of range (`true`) or repeated (`false`).
pub fn find_rank_problem(ranks: &Vec<u32>, n: usize) -> (res: Option<(bool, u32)>)
    ensures
        res == rank_problem_from(ranks@, n as int, 0),
        res is None && ranks@.len() == n ==> is_permutation(ranks@),
{
    let mut seen: Vec<bool> = Vec::new();
    let mut i: usize = 0;
    while i < n
        invariant
            i <= n,
            seen@.len() == i,
            forall|v: int| 0 <= v < i ==> !(#[trigger] seen@[v]),
        decreases n - i,
    {
        seen.push(false);
        i = i + 1;
    }
    proof {
        assert(ranks@.take(0) =~= Seq::<u32>::empty());
    }
    let mut k: usize = 0;
    while k < ranks.len()
        invariant
            k <= ranks@.len(),
            seen@.len() == n,
            rank_problem_from(ranks@, n as int, 0) == rank_problem_from(ranks@, n as int, k as int),
            forall|v: u32| (v as int) < n ==> (#[trigger] seen@[v as int] <==> ranks@.take(k as int).contains(v)),
        decreases ranks@.len() - k,
    {
        let r = ranks[k];
        if r as usize >= n {
            return Some((true, r));
        }
        if seen[r as usize] {
            return Some((false, r));
        }
        proof {
            assert(!ranks@.take(k as int).contains(r));
            assert(ranks@.take(k + 1) =~= ranks@.take(k as int).push(r));
            assert forall|v: u32| (v as int) < n && v != r implies (#[trigger] ranks@.take(k + 1).contains(v) <==> ranks@.take(k as int).contains(v)) by {
                if ranks@.take(k + 1).contains(v) {
                    let j = choose|j: int| 0 <= j < k + 1 && #[trigger] ranks@.take(k + 1)[j] == v;
                    assert(j != k);
                    assert(ranks@.take(k as int)[j] == v);
                }
                if ranks@.take(k as int).contains(v) {
                    let j = choose|j: int| 0 <= j < k && #[trigger] ranks@.take(k as int)[j] == v;
                    assert(ranks@.take(k + 1)[j] == v);
                }
            }
            assert(ranks@.take(k + 1)[k as int] == r);
        }
        seen.set(r as usize, true);
        k = k + 1;
    }
    proof {
        lemma_rank_none(ranks@, n as int, 0);
        if ranks@.len() == n {
            assert forall|a: int, b: int| 0 <= a < b < ranks@.len() implies ranks@[a] != ranks@[b] by {
                assert(!ranks@.take(b).contains(ranks@[b]));
                assert(ranks@.take(b)[a] == ranks@[a]);
            }
        }
    }
    None
}


/// Checks one half's offsets, heads and tails.
pub fn check_direction(dir: Direction, first_out: &Vec<u32>, head: &Vec<u32>, tail: &Vec<u32>) -> (res: Option<CacheError>)
    ensures
        res == direction_error(dir, first_out@, head@, tail@),
{
    if first_out.len() == 0 {
        return Some(CacheError::FirstOutEmpty { dir });
    }
    if first_out[0] != 0 {
        return Some(CacheError::FirstOutStart { dir });
    }
    let last = first_out[first_out.len() - 1];
    if last as usize != head.len() {
        return Some(CacheError::Sentinel { dir, sentinel: last, head_len: head.len() });
    }
    if !is_monotone(first_out) {
        return Some(CacheError::NotMonotone { dir });
    }
    if head.len() != tail.len() {
        return Some(CacheError::TailLen { dir });
    }
    None
}

/// Checks that one half's heads and tails name nodes.
pub fn check_endpoints(dir: Direction, head: &Vec<u32>, tail: &Vec<u32>, n: usize) -> (res: Option<CacheError>)
    ensures
        res == endpoint_error(dir, head@, tail@, n as int),
{
    match find_not_below(head, n) {
        Some(value) => {
            return Some(CacheError::HeadOutOfRange { dir, value, num_nodes: n });
        },
        None => {},
    }
    match find_not_below(tail, n) {
        Some(value) => {
            return Some(CacheError::TailOutOfRange { dir, value, num_nodes: n });
        },
        None => {},
    }
    None
}

/// Checks the stored arc map of one half.
pub fn check_edge_map(dir: Direction, idx: &Vec<u32>, data: &Vec<u32>, m: usize) -> (res: Option<CacheError>)
    requires
        m < usize::MAX,
    ensures
        res == edge_map_error(dir, idx@, data@, m as int),
{
    if idx.len() != m + 1 {
        return Some(CacheError::EdgeMapIdxLen { dir, len: idx.len(), expected: m + 1 });
    }
    if idx[0] != 0 || idx[idx.len() - 1] as usize != data.len() || !is_monotone(idx) {
        return Some(CacheError::EdgeMapLayout { dir });
    }
    None
}

/// Checks the stored reversed graph of one half.
pub fn check_inverted(
    dir: Direction,
    first_out: &Vec<u32>,
    head: &Vec<u32>,
    edge_ids: &Vec<u32>,
    n: usize,
    m: usize,
) -> (res: Option<CacheError>)
    requires
        n < usize::MAX,
    ensures
        res == inverted_error(dir, first_out@, head@, edge_ids@, n as int, m as int),
{
    if first_out.len() != n + 1 {
        return Some(CacheError::InvertedFirstOutLen { dir, len: first_out.len(), expected: n + 1 });
    }
    if head.len() != m {
        return Some(CacheError::InvertedHeadLen { dir, len: head.len(), expected: m });
    }
    match find_not_below(head, n) {
        Some(value) => {
            return Some(CacheError::InvertedHeadOutOfRange { dir, value, num_nodes: n });
        },
        None => {},
    }
    if edge_ids.len() != m {
        return Some(CacheError::InvertedEdgeIdsLen { dir, len: edge_ids.len(), expected: m });
    }
    match find_not_below(edge_ids, m) {
        Some(value) => {
            return Some(CacheError::InvertedEdgeIdOutOfRange { dir, value, num_edges: m });
        },
        None => {},
    }
    if first_out[first_out.len() - 1] as usize != head.len() || !is_monotone(first_out) {
        return Some(CacheError::InvertedLayout { dir });
    }
    None
}

/// Splits concatenated lists at the given offsets.
pub fn unflatten(idx: &Vec<u32>, data: &Vec<u32>) -> (lists: Vec<Vec<u32>>)
    requires
        lists_layout(idx@, data@),
    ensures
        sets(lists@) =~= upward_lists(idx@, data@),
{
    let m = idx.len() - 1;
    let mut lists: Vec<Vec<u32>> = Vec::new();
    let mut e: usize = 0;
    while e < m
        invariant
            m == idx@.len() - 1,
            lists_layout(idx@, data@),
            e <= m,
            lists@.len() == e,
            forall|f: int| 0 <= f < e ==> #[trigger] sets(lists@)[f] == upward_lists(idx@, data@)[f],
        decreases m - e,
    {
        let start = idx[e];
        let end = idx[e + 1];
        proof {
            assert(idx@[e + 1] <= idx@[m as int]);
            assert(idx@[e as int] <= idx@[e + 1]);
        }
        let mut list: Vec<u32> = Vec::new();
        let mut k = start;
        while k < end
            invariant
                start <= k <= end,
                end <= data@.len(),
                list@ == data@.subrange(start as int, k as int),
            decreases end - k,
        {
            list.push(data[k as usize]);
            k = k + 1;
        }
        let ghost before = sets(lists@);
        lists.push(list);
        proof {
            assert forall|f: int| 0 <= f < e + 1 implies #[trigger] sets(lists@)[f] == upward_lists(idx@, data@)[f] by {
                if f < e {
                    assert(sets(lists@)[f] == before[f]);
                }
            }
        }
        e = e + 1;
    }
    lists
}

/// The elimination tree stored in `raw`.
pub fn tree_from_raw(raw: &Vec<u32>) -> (tree: Vec<Option<u32>>)
    ensures
        tree@ =~= tree_from_raw_spec(raw@),
{
    let mut tree: Vec<Option<u32>> = Vec::new();
    let mut i: usize = 0;
    while i < raw.len()
        invariant
            i <= raw@.len(),
            tree@ =~= tree_from_raw_spec(raw@).subrange(0, i as int),
        decreases raw@.len() - i,
    {
        let v = raw[i];
        if v == NO_PARENT {
            tree.push(None);
        } else {
            tree.push(Some(v));
        }
        i = i + 1;
    }
    tree
}

/// The stored form of an elimination tree.
pub fn tree_to_raw(tree: &Vec<Option<u32>>) -> (raw: Vec<u32>)
    ensures
        raw@ =~= tree_to_raw_spec(tree@),
{
    let mut raw: Vec<u32> = Vec::new();
    let mut i: usize = 0;
    while i < tree.len()
        invariant
            i <= tree@.len(),
            raw@ =~= tree_to_raw_spec(tree@).subrange(0, i as int),
        decreases tree@.len() - i,
    {
        match tree[i] {
            Some(p) => raw.push(p),
            None => raw.push(NO_PARENT),
        }
        i = i + 1;
    }
    raw
}

/// Reassembles a directed CCH from its stored arrays.
pub struct DirectedCCHReconstructor;

impl DirectedCCHReconstructor {
    /// Validates every stored array in turn and reports the first failing
    /// check; on success the parts are reassembled as they are. Parts that a
    /// well-formed directed CCH was stored as load back as that CCH. The arc
    /// counts must stay below `usize::MAX` because the arc maps' offset arrays
    /// hold one entry more than there are arcs; stored parts always do where
    /// `u32::MAX < usize::MAX` (`lemma_saved_parts_in_bounds`).
    pub fn reconstruct_with(self, parts: DirectedCchParts) -> (res: Result<DirectedCCH, CacheError>)
        requires
            parts.forward_head@.len() < usize::MAX,
            parts.backward_head@.len() < usize::MAX,
            parts.ranks@.len() <= u32::MAX,
        ensures
            match res {
                Ok(d) => {
                    &&& parts_error(&parts) is None
                    &&& d.wf()
                    &&& loaded_from(&d, &parts)
                },
                Err(e) => parts_error(&parts) == Some(e),
            },
            forall|stored: DirectedCCH|
                stored.wf() && #[trigger] saved_parts(&stored, &parts) ==> (res matches Ok(d) && same_directed(&d, &stored)),
    {
        let ghost gp = parts;
        let res = validate_parts(parts);
        proof {
            assert forall|stored: DirectedCCH|
                stored.wf() && #[trigger] saved_parts(&stored, &gp) implies (res matches Ok(d) && same_directed(&d, &stored)) by {
                lemma_store_load_round_trip(&stored, &gp);
                if let Ok(d) = res {
                    assert(loaded_from(&d, &gp));
                }
            }
        }
        res
    }
}

/// Validates every stored array in turn and reports the first failing check;
/// on success the parts are reassembled as they are.
fn validate_parts(parts: DirectedCchParts) -> (res: Result<DirectedCCH, CacheError>)
    requires
        parts.forward_head@.len() < usize::MAX,
        parts.backward_head@.len() < usize::MAX,
        parts.ranks@.len() <= u32::MAX,
    ensures
        match res {
            Ok(d) => {
                &&& parts_error(&parts) is None
                &&& d.wf()
                &&& loaded_from(&d, &parts)
            },
            Err(e) => parts_error(&parts) == Some(e),
        },
{
    let p = parts;
    match check_direction(Direction::Forward, &p.forward_first_out, &p.forward_head, &p.forward_tail) {
        Some(e) => {
            return Err(e);
        },
        None => {},
    }
    match check_direction(Direction::Backward, &p.backward_first_out, &p.backward_head, &p.backward_tail) {
        Some(e) => {
            return Err(e);
        },
        None => {},
    }
    if p.forward_first_out.len() != p.backward_first_out.len() {
        return Err(CacheError::FirstOutLenMismatch);
    }
    let n = p.forward_first_out.len() - 1;
    match check_endpoints(Direction::Forward, &p.forward_head, &p.forward_tail, n) {
        Some(e) => {
            return Err(e);
        },
        None => {},
    }
    match check_endpoints(Direction::Backward, &p.backward_head, &p.backward_tail, n) {
        Some(e) => {
            return Err(e);
        },
        None => {},
    }
    let mf = p.forward_head.len();
    let mb = p.backward_head.len();
    match check_edge_map(Direction::Forward, &p.fw_edge_to_orig_idx, &p.fw_edge_to_orig_data, mf) {
        Some(e) => {
            return Err(e);
        },
        None => {},
    }
    match check_edge_map(Direction::Backward, &p.bw_edge_to_orig_idx, &p.bw_edge_to_orig_data, mb) {
        Some(e) => {
            return Err(e);
        },
        None => {},
    }
    match check_inverted(
        Direction::Forward,
        &p.fw_inverted_first_out,
        &p.fw_inverted_head,
        &p.fw_inverted_edge_ids,
        n,
        mf,
    ) {
        Some(e) => {
            return Err(e);
        },
        None => {},
    }
    match check_inverted(
        Direction::Backward,
        &p.bw_inverted_first_out,
        &p.bw_inverted_head,
        &p.bw_inverted_edge_ids,
        n,
        mb,
    ) {
        Some(e) => {
            return Err(e);
        },
        None => {},
    }
    if p.elimination_tree.len() != n {
        return Err(CacheError::EliminationTreeLen { len: p.elimination_tree.len(), expected: n });
    }
    match find_bad_parent(&p.elimination_tree, n) {
        Some(parent) => {
            return Err(CacheError::EliminationTreeParentOutOfRange { parent, num_nodes: n });
        },
        None => {},
    }
    if p.ranks.len() != n {
        return Err(CacheError::RanksLen { len: p.ranks.len(), expected: n });
    }
    match find_rank_problem(&p.ranks, n) {
        Some((out, rank)) => {
            if out {
                return Err(CacheError::RankOutOfRange { rank });
            } else {
                return Err(CacheError::RankDuplicate { rank });
            }
        },
        None => {},
    }
    match find_tree_order_problem(&p.elimination_tree) {
        Some((node, parent)) => {
            return Err(CacheError::EliminationTreeOrder { node, parent });
        },
        None => {},
    }
    proof {
        assert(parts_error(&p) is None);
        lemma_first_not_below_none(p.forward_head@, n as int);
        lemma_first_not_below_none(p.forward_tail@, n as int);
        lemma_first_not_below_none(p.backward_head@, n as int);
        lemma_first_not_below_none(p.backward_tail@, n as int);
        lemma_first_not_below_none(p.fw_inverted_head@, n as int);
        lemma_first_not_below_none(p.bw_inverted_head@, n as int);
        lemma_first_not_below_none(p.fw_inverted_edge_ids@, mf as int);
        lemma_first_not_below_none(p.bw_inverted_edge_ids@, mb as int);
        lemma_first_bad_parent_none(p.elimination_tree@, n as int);
        lemma_tree_order_none(p.elimination_tree@, 0);
    }
    let forward_maps = unflatten(&p.fw_edge_to_orig_idx, &p.fw_edge_to_orig_data);
    let backward_maps = unflatten(&p.bw_edge_to_orig_idx, &p.bw_edge_to_orig_data);
    let tree = tree_from_raw(&p.elimination_tree);
    let ghost old_p = p;
    let DirectedCchParts {
        forward_first_out,
        forward_head,
        forward_tail,
        backward_first_out,
        backward_head,
        backward_tail,
        fw_inverted_first_out,
        fw_inverted_head,
        fw_inverted_edge_ids,
        bw_inverted_first_out,
        bw_inverted_head,
        bw_inverted_edge_ids,
        ranks,
        ..
    } = p;
    let node_order = NodeOrder::from_ranks(ranks);
    let forward_inverted = ReversedGraph::from_parts(fw_inverted_first_out, fw_inverted_head, fw_inverted_edge_ids);
    let backward_inverted = ReversedGraph::from_parts(bw_inverted_first_out, bw_inverted_head, bw_inverted_edge_ids);
    let d = DirectedCCH::assemble(
        forward_first_out,
        forward_head,
        forward_tail,
        backward_first_out,
        backward_head,
        backward_tail,
        node_order,
        forward_maps,
        backward_maps,
        tree,
        forward_inverted,
        backward_inverted,
    );
    proof {
        assert(tree_points_up(d.spec_elimination_tree(), n as int));
    }
    Ok(d)
}

/// The arrays that store `d`: its own arrays, the arc maps concatenated
/// behind an offset array, the elimination tree with the sentinel for roots
/// and the ranks.
pub open spec fn saved_parts(d: &DirectedCCH, p: &DirectedCchParts) -> bool {
    &&& p.forward_first_out@ == d.spec_forward_first_out()
    &&& p.forward_head@ == d.spec_forward_head()
    &&& p.forward_tail@ == d.spec_forward_tail()
    &&& p.backward_first_out@ == d.spec_backward_first_out()
    &&& p.backward_head@ == d.spec_backward_head()
    &&& p.backward_tail@ == d.spec_backward_tail()
    &&& p.fw_edge_to_orig_idx@.len() == d.spec_forward_orig().len() + 1
    &&& lists_layout(p.fw_edge_to_orig_idx@, p.fw_edge_to_orig_data@)
    &&& upward_lists(p.fw_edge_to_orig_idx@, p.fw_edge_to_orig_data@) == d.spec_forward_orig()
    &&& p.bw_edge_to_orig_idx@.len() == d.spec_backward_orig().len() + 1
    &&& lists_layout(p.bw_edge_to_orig_idx@, p.bw_edge_to_orig_data@)
    &&& upward_lists(p.bw_edge_to_orig_idx@, p.bw_edge_to_orig_data@) == d.spec_backward_orig()
    &&& p.fw_inverted_first_out@ == d.spec_forward_inverted().spec_first_out()
    &&& p.fw_inverted_head@ == d.spec_forward_inverted().spec_head()
    &&& p.fw_inverted_edge_ids@ == d.spec_forward_inverted().spec_edge_ids()
    &&& p.bw_inverted_first_out@ == d.spec_backward_inverted().spec_first_out()
    &&& p.bw_inverted_head@ == d.spec_backward_inverted().spec_head()
    &&& p.bw_inverted_edge_ids@ == d.spec_backward_inverted().spec_edge_ids()
    &&& p.elimination_tree@ == tree_to_raw_spec(d.spec_elimination_tree())
    &&& p.ranks@ == d.spec_order().rank_seq()
}

/// Two reversed graphs hold the same arrays.
pub open spec fn same_reversed(a: ReversedGraph, b: ReversedGraph) -> bool {
    &&& a.spec_first_out() == b.spec_first_out()
    &&& a.spec_head() == b.spec_head()
    &&& a.spec_edge_ids() == b.spec_edge_ids()
}

/// Two directed CCHs hold the same arrays, arc maps, tree and order.
pub open spec fn same_directed(a: &DirectedCCH, b: &DirectedCCH) -> bool {
    &&& a.spec_forward_first_out() == b.spec_forward_first_out()
    &&& a.spec_forward_head() == b.spec_forward_head()
    &&& a.spec_forward_tail() == b.spec_forward_tail()
    &&& a.spec_backward_first_out() == b.spec_backward_first_out()
    &&& a.spec_backward_head() == b.spec_backward_head()
    &&& a.spec_backward_tail() == b.spec_backward_tail()
    &&& a.spec_forward_orig() == b.spec_forward_orig()
    &&& a.spec_backward_orig() == b.spec_backward_orig()
    &&& same_reversed(a.spec_forward_inverted(), b.spec_forward_inverted())
    &&& same_reversed(a.spec_backward_inverted(), b.spec_backward_inverted())
    &&& a.spec_elimination_tree() == b.spec_elimination_tree()
    &&& a.spec_order().same_as(b.spec_order())
}

impl DirectedCCH {
    /// The flat arrays this CCH is stored as; `None` when an arc map holds
    /// more entries in all than a `u32` offset can address.
    pub fn to_parts(&self) -> (res: Option<DirectedCchParts>)
        requires
            self.wf(),
        ensures
            match res {
                Some(p) => saved_parts(self, &p),
                None => {
                    ||| prefix_total(self.spec_forward_orig(), self.spec_forward_orig().len() as int) > u32::MAX
                    ||| prefix_total(self.spec_backward_orig(), self.spec_backward_orig().len() as int) > u32::MAX
                },
            },
    {
        let (fw_edge_to_orig_idx, fw_edge_to_orig_data) = match flatten_upward(self.forward_cch_edge_to_orig_arc()) {
            Some(flat) => flat,
            None => {
                return None;
            },
        };
        let (bw_edge_to_orig_idx, bw_edge_to_orig_data) = match flatten_upward(self.backward_cch_edge_to_orig_arc()) {
            Some(flat) => flat,
            None => {
                return None;
            },
        };
        Some(
            DirectedCchParts {
                forward_first_out: copy_ids(self.forward_first_out()),
                forward_head: copy_ids(self.forward_head()),
                forward_tail: copy_ids(self.forward_tail()),
                backward_first_out: copy_ids(self.backward_first_out()),
                backward_head: copy_ids(self.backward_head()),
                backward_tail: copy_ids(self.backward_tail()),
                fw_edge_to_orig_idx,
                fw_edge_to_orig_data,
                bw_edge_to_orig_idx,
                bw_edge_to_orig_data,
                fw_inverted_first_out: copy_ids(self.forward_inverted().first_out()),
                fw_inverted_head: copy_ids(self.forward_inverted().head_slice()),
                fw_inverted_edge_ids: copy_ids(self.forward_inverted().edge_ids()),
                bw_inverted_first_out: copy_ids(self.backward_inverted().first_out()),
                bw_inverted_head: copy_ids(self.backward_inverted().head_slice()),
                bw_inverted_edge_ids: copy_ids(self.backward_inverted().edge_ids()),
                elimination_tree: tree_to_raw(self.elimination_tree()),
                ranks: copy_ids(self.node_order().ranks()),
            },
        )
    }
}

proof fn lemma_rank_problem_none(ranks: Seq<u32>, n: int, k: int)
    requires
        0 <= k <= ranks.len(),
        ranks.len() == n,
        forall|v: int| 0 <= v < ranks.len() ==> (#[trigger] ranks[v] as int) < n,
        forall|a: int, b: int| 0 <= a < b < ranks.len() ==> ranks[a] != ranks[b],
    ensures
        rank_problem_from(ranks, n, k) is None,
    decreases ranks.len() - k,
{
    if k < ranks.len() {
        if ranks.take(k).contains(ranks[k]) {
            let j = choose|j: int| 0 <= j < k && #[trigger] ranks.take(k)[j] == ranks[k];
            assert(ranks[j] == ranks[k]);
        }
        lemma_rank_problem_none(ranks, n, k + 1);
    }
}

proof fn lemma_first_not_below_all(s: Seq<u32>, b: int)
    requires
        all_below(s, b),
    ensures
        first_not_below(s, b) is None,
{
    lemma_first_not_below_none(s, b);
}

/// The stored parts of a well-formed directed CCH hold at most `u32::MAX`
/// arcs per half and `u32::MAX` ranks (ids are 32-bit), so they meet the
/// loader's bounds on every target where `u32::MAX < usize::MAX`.
pub proof fn lemma_saved_parts_in_bounds(d: &DirectedCCH, p: &DirectedCchParts)
    requires
        d.wf(),
        saved_parts(d, p),
    ensures
        p.ranks@.len() <= u32::MAX,
        p.forward_head@.len() <= u32::MAX,
        p.backward_head@.len() <= u32::MAX,
{
    assert(p.forward_head@.len() == d.spec_forward_first_out()[d.spec_forward_first_out().len() - 1]);
    assert(p.backward_head@.len() == d.spec_backward_first_out()[d.spec_backward_first_out().len() - 1]);
    assert(p.ranks@.len() == d.spec_order().rank_seq().len());
}

/// Storing a well-formed directed CCH and loading it again passes every
/// check of the loader and gives back the same CCH: the stored parts have no
/// error, and every well-formed CCH loaded from them equals the stored one.
pub proof fn lemma_store_load_round_trip(d: &DirectedCCH, p: &DirectedCchParts)
    requires
        d.wf(),
        saved_parts(d, p),
    ensures
        parts_error(p) is None,
        forall|loaded: DirectedCCH| #[trigger] loaded_from(&loaded, p) && loaded.wf() ==> same_directed(&loaded, d),
{
    let n = d.spec_num_nodes();
    let mf = d.spec_forward_head().len() as int;
    let mb = d.spec_backward_head().len() as int;
    let fi = d.spec_forward_inverted();
    let bi = d.spec_backward_inverted();
    lemma_first_not_below_all(p.forward_head@, n);
    lemma_first_not_below_all(p.forward_tail@, n);
    lemma_first_not_below_all(p.backward_head@, n);
    lemma_first_not_below_all(p.backward_tail@, n);
    lemma_first_not_below_all(p.fw_inverted_head@, n);
    lemma_first_not_below_all(p.bw_inverted_head@, n);
    lemma_first_not_below_all(p.fw_inverted_edge_ids@, mf);
    lemma_first_not_below_all(p.bw_inverted_edge_ids@, mb);
    let tree = d.spec_elimination_tree();
    let raw = p.elimination_tree@;
    assert forall|x: int| 0 <= x < raw.len() implies #[trigger] raw[x] == NO_PARENT || (raw[x] as int) < n by {
        if tree[x].is_some() {
            assert(x < tree[x].unwrap() < n);
        }
    }
    lemma_first_bad_parent_none(raw, n);
    assert forall|x: int| 0 <= x < raw.len() implies (#[trigger] raw[x] == NO_PARENT || raw[x] > x) by {
        if tree[x].is_some() {
            assert(x < tree[x].unwrap() < n);
        }
    }
    lemma_tree_order_clean(raw, 0);
    let ranks = p.ranks@;
    assert forall|a: int, b: int| 0 <= a < b < ranks.len() implies ranks[a] != ranks[b] by {
        assert(d.spec_order().nodes()[ranks[a] as int] == a);
        assert(d.spec_order().nodes()[ranks[b] as int] == b);
    }
    lemma_rank_problem_none(ranks, n, 0);
    assert(parts_error(p) is None);
    assert forall|x: int| 0 <= x < tree.len() implies #[trigger] tree_from_raw_spec(raw)[x] == tree[x] by {
        if tree[x].is_some() {
            assert(x < tree[x].unwrap() < n);
        }
    }
    assert(tree_from_raw_spec(raw) =~= tree);
    assert forall|loaded: DirectedCCH| #[trigger] loaded_from(&loaded, p) && loaded.wf() implies same_directed(&loaded, d) by {
        lemma_ranks_determine_order(&loaded.spec_order(), &d.spec_order());
    }
}

proof fn lemma_tree_order_clean(tree: Seq<u32>, k: int)
    requires
        0 <= k <= tree.len(),
        forall|x: int| 0 <= x < tree.len() ==> (#[trigger] tree[x] == NO_PARENT || tree[x] > x),
    ensures
        tree_order_problem_from(tree, k) is None,
    decreases tree.len() - k,
{
    if k < tree.len() {
        assert(tree[k] == NO_PARENT || tree[k] > k);
        lemma_tree_order_clean(tree, k + 1);
    }
}

} // verus!
