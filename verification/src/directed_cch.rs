//! Directed CCHs: separate upward and downward arc sets, each pruned of the
//! arcs that are infinite for every metric. Built from a [`CCH`] or
//! reassembled from a validated on-disk cache.

use vstd::prelude::*;
use crate::cch::{
    keep_finite_either, kept_arcs, lemma_kept_arcs,
    CCH, CCHT, ReversedGraph, copy_tree, filter_arcs, filtered_from, finite_flags, keep_finite, lemma_group_exists,
    lemma_heads_below, tails_match, tree_points_up, upward_csr_wf,
};
use crate::contraction::sets;
use crate::graph::{arc_of_node, csr_wf, lemma_groups_by_key_facts};
use crate::node_order::NodeOrder;

verus! {

/// Every entry is below `bound`.
pub open spec fn all_below(s: Seq<u32>, bound: int) -> bool {
    forall|k: int| 0 <= k < s.len() ==> (#[trigger] s[k] as int) < bound
}

/// A stored reversed graph is index-consistent with `n` nodes and `m` arcs.
pub open spec fn reversed_bounds(rev: ReversedGraph, n: int, m: int) -> bool {
    &&& rev.spec_first_out().len() == n + 1
    &&& csr_wf(rev.spec_first_out(), rev.spec_head().len() as int)
    &&& rev.spec_head().len() == m
    &&& all_below(rev.spec_head(), n)
    &&& rev.spec_edge_ids().len() == m
    &&& all_below(rev.spec_edge_ids(), m)
}

/// One direction of a directed CCH is a CSR graph over `n` nodes whose
/// heads and tails are nodes.
pub open spec fn direction_bounds(first_out: Seq<u32>, head: Seq<u32>, tail: Seq<u32>, n: int) -> bool {
    &&& first_out.len() == n + 1
    &&& csr_wf(first_out, head.len() as int)
    &&& first_out[0] == 0
    &&& tail.len() == head.len()
    &&& all_below(head, n)
    &&& all_below(tail, n)
}

/// A CCH with separately pruned upward (forward) and downward (backward)
/// arc sets.
pub struct DirectedCCH {
    forward_first_out: Vec<u32>,
    forward_head: Vec<u32>,
    forward_tail: Vec<u32>,
    backward_first_out: Vec<u32>,
    backward_head: Vec<u32>,
    backward_tail: Vec<u32>,
    node_order: NodeOrder,
    forward_cch_edge_to_orig_arc: Vec<Vec<u32>>,
    backward_cch_edge_to_orig_arc: Vec<Vec<u32>>,
    elimination_tree: Vec<Option<u32>>,
    forward_inverted: ReversedGraph,
    backward_inverted: ReversedGraph,
}

impl DirectedCCH {
    pub closed spec fn spec_forward_first_out(&self) -> Seq<u32> {
        self.forward_first_out@
    }

    pub closed spec fn spec_forward_head(&self) -> Seq<u32> {
        self.forward_head@
    }

    pub closed spec fn spec_forward_tail(&self) -> Seq<u32> {
        self.forward_tail@
    }

    pub closed spec fn spec_backward_first_out(&self) -> Seq<u32> {
        self.backward_first_out@
    }

    pub closed spec fn spec_backward_head(&self) -> Seq<u32> {
        self.backward_head@
    }

    pub closed spec fn spec_backward_tail(&self) -> Seq<u32> {
        self.backward_tail@
    }

    pub closed spec fn spec_order(&self) -> NodeOrder {
        self.node_order
    }

    pub closed spec fn spec_forward_orig(&self) -> Seq<Seq<u32>> {
        sets(self.forward_cch_edge_to_orig_arc@)
    }

    pub closed spec fn spec_backward_orig(&self) -> Seq<Seq<u32>> {
        sets(self.backward_cch_edge_to_orig_arc@)
    }

    pub closed spec fn spec_elimination_tree(&self) -> Seq<Option<u32>> {
        self.elimination_tree@
    }

    pub closed spec fn spec_forward_inverted(&self) -> ReversedGraph {
        self.forward_inverted
    }

    pub closed spec fn spec_backward_inverted(&self) -> ReversedGraph {
        self.backward_inverted
    }

    /// Number of nodes.
    pub open spec fn spec_num_nodes(&self) -> int {
        self.spec_forward_first_out().len() - 1
    }

    /// Index consistency of all parts (what a validated cache guarantees).
    pub open spec fn wf(&self) -> bool {
        let n = self.spec_num_nodes();
        &&& direction_bounds(self.spec_forward_first_out(), self.spec_forward_head(), self.spec_forward_tail(), n)
        &&& direction_bounds(self.spec_backward_first_out(), self.spec_backward_head(), self.spec_backward_tail(), n)
        &&& self.spec_forward_orig().len() == self.spec_forward_head().len()
        &&& self.spec_backward_orig().len() == self.spec_backward_head().len()
        &&& reversed_bounds(self.spec_forward_inverted(), n, self.spec_forward_head().len() as int)
        &&& reversed_bounds(self.spec_backward_inverted(), n, self.spec_backward_head().len() as int)
        &&& tree_points_up(self.spec_elimination_tree(), n)
        &&& self.spec_order().wf()
        &&& self.spec_order().spec_len() == n
    }

    /// Puts already validated parts together.
    pub(crate) fn assemble(
        forward_first_out: Vec<u32>,
        forward_head: Vec<u32>,
        forward_tail: Vec<u32>,
        backward_first_out: Vec<u32>,
        backward_head: Vec<u32>,
        backward_tail: Vec<u32>,
        node_order: NodeOrder,
        forward_cch_edge_to_orig_arc: Vec<Vec<u32>>,
        backward_cch_edge_to_orig_arc: Vec<Vec<u32>>,
        elimination_tree: Vec<Option<u32>>,
        forward_inverted: ReversedGraph,
        backward_inverted: ReversedGraph,
    ) -> (d: DirectedCCH)
        ensures
            d.spec_forward_first_out() == forward_first_out@,
            d.spec_forward_head() == forward_head@,
            d.spec_forward_tail() == forward_tail@,
            d.spec_backward_first_out() == backward_first_out@,
            d.spec_backward_head() == backward_head@,
            d.spec_backward_tail() == backward_tail@,
            d.spec_order() == node_order,
            d.spec_forward_orig() == sets(forward_cch_edge_to_orig_arc@),
            d.spec_backward_orig() == sets(backward_cch_edge_to_orig_arc@),
            d.spec_elimination_tree() == elimination_tree@,
            d.spec_forward_inverted() == forward_inverted,
            d.spec_backward_inverted() == backward_inverted,
    {
        DirectedCCH {
            forward_first_out,
            forward_head,
            forward_tail,
            backward_first_out,
            backward_head,
            backward_tail,
            node_order,
            forward_cch_edge_to_orig_arc,
            backward_cch_edge_to_orig_arc,
            elimination_tree,
            forward_inverted,
            backward_inverted,
        }
    }

    /// Number of nodes.
    pub fn num_nodes(&self) -> (n: usize)
        requires
            self.wf(),
        ensures
            n == self.spec_num_nodes(),
    {
        self.forward_first_out.len() - 1
    }
}


impl CCHT for DirectedCCH {
    open spec fn cch_wf(&self) -> bool {
        self.wf()
    }

    open spec fn spec_fw_first_out(&self) -> Seq<u32> {
        self.spec_forward_first_out()
    }

    open spec fn spec_bw_first_out(&self) -> Seq<u32> {
        self.spec_backward_first_out()
    }

    open spec fn spec_fw_head(&self) -> Seq<u32> {
        self.spec_forward_head()
    }

    open spec fn spec_bw_head(&self) -> Seq<u32> {
        self.spec_backward_head()
    }

    open spec fn spec_fw_tail(&self) -> Seq<u32> {
        self.spec_forward_tail()
    }

    open spec fn spec_bw_tail(&self) -> Seq<u32> {
        self.spec_backward_tail()
    }

    open spec fn spec_fw_inverted(&self) -> ReversedGraph {
        self.spec_forward_inverted()
    }

    open spec fn spec_bw_inverted(&self) -> ReversedGraph {
        self.spec_backward_inverted()
    }

    open spec fn spec_fw_orig(&self) -> Seq<Seq<u32>> {
        self.spec_forward_orig()
    }

    open spec fn spec_bw_orig(&self) -> Seq<Seq<u32>> {
        self.spec_backward_orig()
    }

    open spec fn spec_cch_tree(&self) -> Seq<Option<u32>> {
        self.spec_elimination_tree()
    }

    open spec fn spec_cch_order(&self) -> NodeOrder {
        self.spec_order()
    }

    fn num_cch_nodes(&self) -> (n: usize) {
        self.forward_first_out.len() - 1
    }

    fn forward_first_out(&self) -> (r: &Vec<u32>) {
        &self.forward_first_out
    }

    fn backward_first_out(&self) -> (r: &Vec<u32>) {
        &self.backward_first_out
    }

    fn forward_head(&self) -> (r: &Vec<u32>) {
        &self.forward_head
    }

    fn backward_head(&self) -> (r: &Vec<u32>) {
        &self.backward_head
    }

    fn forward_tail(&self) -> (r: &Vec<u32>) {
        &self.forward_tail
    }

    fn backward_tail(&self) -> (r: &Vec<u32>) {
        &self.backward_tail
    }

    fn forward_inverted(&self) -> (r: &ReversedGraph) {
        &self.forward_inverted
    }

    fn backward_inverted(&self) -> (r: &ReversedGraph) {
        &self.backward_inverted
    }

    fn forward_cch_edge_to_orig_arc(&self) -> (r: &Vec<Vec<u32>>) {
        &self.forward_cch_edge_to_orig_arc
    }

    fn backward_cch_edge_to_orig_arc(&self) -> (r: &Vec<Vec<u32>>) {
        &self.backward_cch_edge_to_orig_arc
    }

    fn elimination_tree(&self) -> (r: &Vec<Option<u32>>) {
        &self.elimination_tree
    }

    fn node_order(&self) -> (r: &NodeOrder) {
        &self.node_order
    }
}


/// Tails of a CSR graph are nodes.
pub proof fn lemma_tails_below(first_out: Seq<u32>, tail: Seq<u32>)
    requires
        tails_match(first_out, tail),
    ensures
        all_below(tail, first_out.len() - 1),
{
    assert forall|k: int| 0 <= k < tail.len() implies (#[trigger] tail[k] as int) < first_out.len() - 1 by {
        assert(arc_of_node(first_out, tail[k] as int, k));
    }
}

/// A reversed view built by [`ReversedGraph::reversed`] satisfies the index
/// bounds of a stored one.
pub proof fn lemma_reversed_bounds(rev: ReversedGraph, first_out: Seq<u32>, head: Seq<u32>, tail: Seq<u32>)
    requires
        upward_csr_wf(first_out, head),
        tails_match(first_out, tail),
        tail.len() == head.len(),
        rev.reverses(first_out, head, tail),
    ensures
        reversed_bounds(rev, first_out.len() - 1, head.len() as int),
{
    let n = first_out.len() - 1;
    lemma_groups_by_key_facts(head, n, rev.spec_first_out(), rev.spec_edge_ids());
    lemma_tails_below(first_out, tail);
    assert forall|i: int| 0 <= i < rev.spec_edge_ids().len() implies (#[trigger] rev.spec_edge_ids()[i] as int) < head.len() by {
        let k = lemma_group_exists(rev.spec_first_out(), n, i);
    }
    assert forall|i: int| 0 <= i < rev.spec_head().len() implies (#[trigger] rev.spec_head()[i] as int) < n by {
        assert(rev.spec_head()[i] == tail[rev.spec_edge_ids()[i] as int]);
        assert((rev.spec_edge_ids()[i] as int) < head.len());
    }
}

/// The facts that `to_directed_cch` guarantees for one direction.
pub open spec fn pruned_direction(
    cch: CCH,
    weights: Seq<u32>,
    maps: Seq<Seq<u32>>,
    first_out: Seq<u32>,
    head: Seq<u32>,
    tail: Seq<u32>,
    maps2: Seq<Seq<u32>>,
    inverted: ReversedGraph,
) -> bool {
    &&& first_out.len() == cch.spec_first_out().len()
    &&& upward_csr_wf(first_out, head)
    &&& tails_match(first_out, tail)
    &&& inverted.reverses(first_out, head, tail)
    &&& filtered_from(cch.spec_head(), cch.spec_tail(), maps, keep_finite(weights), head, tail, maps2, kept_arcs(keep_finite(weights)))
}

/// Pruning a CCH in one piece keeps exactly the arcs that pruning it into a
/// directed CCH keeps upward or downward, for the same forward and backward
/// weights: an arc survives `remove_always_infinity` (whose kept arcs are
/// `kept_arcs(keep_finite_either(..))`) iff it survives in the forward half
/// (`kept_arcs(keep_finite(forward_weights))`) or the backward half
/// (`kept_arcs(keep_finite(backward_weights))`) of `to_directed_cch`. All
/// three keep the surviving arcs in their relative order.
pub proof fn lemma_pruning_agrees(c: CCH, forward_weights: Seq<u32>, backward_weights: Seq<u32>)
    requires
        c.wf(),
        forward_weights.len() == c.spec_head().len(),
        backward_weights.len() == c.spec_head().len(),
    ensures
        forall|e: u32|
            #[trigger] kept_arcs(keep_finite_either(forward_weights, backward_weights)).contains(e) <==> kept_arcs(
                keep_finite(forward_weights),
            ).contains(e) || kept_arcs(keep_finite(backward_weights)).contains(e),
{
    assert(c.spec_head().len() == c.spec_first_out()[c.spec_first_out().len() - 1]);
    lemma_kept_arcs(keep_finite_either(forward_weights, backward_weights));
    lemma_kept_arcs(keep_finite(forward_weights));
    lemma_kept_arcs(keep_finite(backward_weights));
    let either = keep_finite_either(forward_weights, backward_weights);
    let fw = keep_finite(forward_weights);
    let bw = keep_finite(backward_weights);
    assert forall|e: u32| #[trigger] kept_arcs(either).contains(e) <==> kept_arcs(fw).contains(e) || kept_arcs(bw).contains(e) by {
        assert(kept_arcs(either).contains(e) <==> ((e as int) < either.len() && either[e as int]));
        assert(kept_arcs(fw).contains(e) <==> ((e as int) < fw.len() && fw[e as int]));
        assert(kept_arcs(bw).contains(e) <==> ((e as int) < bw.len() && bw[e as int]));
    }
}

impl CCH {
    /// Splits the CCH into separately pruned upward and downward arc sets:
    /// the upward set keeps the arcs with a finite forward weight, the
    /// downward set those with a finite backward weight (the weights are the
    /// always-infinity customization's).
    pub fn to_directed_cch(&self, forward_weights: &Vec<u32>, backward_weights: &Vec<u32>) -> (d: DirectedCCH)
        requires
            self.wf(),
            forward_weights@.len() == self.spec_head().len(),
            backward_weights@.len() == self.spec_head().len(),
        ensures
            d.wf(),
            pruned_direction(
                *self,
                forward_weights@,
                self.spec_forward_orig(),
                d.spec_forward_first_out(),
                d.spec_forward_head(),
                d.spec_forward_tail(),
                d.spec_forward_orig(),
                d.spec_forward_inverted(),
            ),
            pruned_direction(
                *self,
                backward_weights@,
                self.spec_backward_orig(),
                d.spec_backward_first_out(),
                d.spec_backward_head(),
                d.spec_backward_tail(),
                d.spec_backward_orig(),
                d.spec_backward_inverted(),
            ),
            d.spec_order().same_as(self.spec_order()),
            d.spec_elimination_tree() == self.spec_elimination_tree(),
    {
        let keep_forward = finite_flags(forward_weights, None);
        let keep_backward = finite_flags(backward_weights, None);
        let (ffo, fhead, ftail, fmaps, _forigin) = filter_arcs(
            self.first_out(),
            self.head(),
            self.tail(),
            self.forward_cch_edge_to_orig_arc(),
            &keep_forward,
        );
        let (bfo, bhead, btail, bmaps, _borigin) = filter_arcs(
            self.first_out(),
            self.head(),
            self.tail(),
            self.backward_cch_edge_to_orig_arc(),
            &keep_backward,
        );
        let finv = ReversedGraph::reversed(&ffo, &fhead, &ftail);
        let binv = ReversedGraph::reversed(&bfo, &bhead, &btail);
        proof {
            lemma_reversed_bounds(finv, ffo@, fhead@, ftail@);
            lemma_reversed_bounds(binv, bfo@, bhead@, btail@);
            lemma_heads_below(ffo@, fhead@);
            lemma_heads_below(bfo@, bhead@);
            lemma_tails_below(ffo@, ftail@);
            lemma_tails_below(bfo@, btail@);
        }
        let d = DirectedCCH {
            forward_first_out: ffo,
            forward_head: fhead,
            forward_tail: ftail,
            backward_first_out: bfo,
            backward_head: bhead,
            backward_tail: btail,
            node_order: self.node_order().clone(),
            forward_cch_edge_to_orig_arc: fmaps,
            backward_cch_edge_to_orig_arc: bmaps,
            elimination_tree: copy_tree(self.elimination_tree()),
            forward_inverted: finv,
            backward_inverted: binv,
        };
        d
    }
}

} // verus!
