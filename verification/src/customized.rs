//! The results of customization: weights for the upward and downward arcs
//! of a CCH together with, for every arc, the lower triangle it was relaxed
//! through (its unpacking).

use vstd::prelude::*;
use crate::cch::{elimination_tree_of, CCH, CCHT};
use crate::contraction::is_elimination_graph;
use crate::tree_walk::{chordal_customization, lemma_chordal_from_cliques};
use crate::graph::{arc_of_node, offsets_monotone, tails_from_first_out};

verus! {

/// Where an unpacking entry leads: for a shortcut, its downward arc, its
/// upward arc and the middle node (the tail of the downward arc); `None`
/// for an arc that stands for input arcs.
pub open spec fn unpacked(entry: (Option<u32>, Option<u32>), backward_tail: Seq<u32>) -> Option<(u32, u32, u32)> {
    match entry.0 {
        Some(down) => Some((down, entry.1.unwrap(), backward_tail[down as int])),
        None => None,
    }
}

/// An unpacking entry can be followed: a downward arc comes with an upward
/// arc, and the downward arc has a tail.
pub open spec fn followable(entry: (Option<u32>, Option<u32>), backward_tail_len: int) -> bool {
    entry.0 is Some ==> entry.1 is Some && (entry.0.unwrap() as int) < backward_tail_len
}

/// The tail of every arc of a CSR graph, for arc ids counted from the first
/// offset.
pub open spec fn tails_for(first_out: Seq<u32>, tails: Seq<u32>) -> bool {
    if first_out.len() == 0 {
        tails.len() == 0
    } else {
        &&& tails.len() == first_out[first_out.len() - 1] - first_out[0]
        &&& forall|k: int| 0 <= k < tails.len() ==> #[trigger] arc_of_node(first_out, tails[k] as int, k + first_out[0])
    }
}

/// A weighted CSR graph borrowed from its owner.
pub struct BorrowedGraph<'a> {
    pub first_out: &'a Vec<u32>,
    pub head: &'a Vec<u32>,
    pub weight: &'a Vec<u32>,
}

/// A weighted CSR graph.
pub struct OwnedGraph {
    first_out: Vec<u32>,
    head: Vec<u32>,
    weight: Vec<u32>,
}

impl OwnedGraph {
    pub closed spec fn spec_first_out(&self) -> Seq<u32> {
        self.first_out@
    }

    pub closed spec fn spec_head(&self) -> Seq<u32> {
        self.head@
    }

    pub closed spec fn spec_weight(&self) -> Seq<u32> {
        self.weight@
    }

    pub fn new(first_out: Vec<u32>, head: Vec<u32>, weight: Vec<u32>) -> (g: OwnedGraph)
        ensures
            g.spec_first_out() == first_out@,
            g.spec_head() == head@,
            g.spec_weight() == weight@,
    {
        OwnedGraph { first_out, head, weight }
    }

    pub fn borrowed(&self) -> (g: BorrowedGraph<'_>)
        ensures
            g.first_out@ == self.spec_first_out(),
            g.head@ == self.spec_head(),
            g.weight@ == self.spec_weight(),
    {
        BorrowedGraph { first_out: &self.first_out, head: &self.head, weight: &self.weight }
    }

    pub fn first_out(&self) -> (r: &Vec<u32>)
        ensures
            r@ == self.spec_first_out(),
    {
        &self.first_out
    }
}

/// A customized CCH: weighted upward and downward graphs with the unpacking
/// of every arc.
pub trait Customized {
    type CCH: CCHT;

    spec fn spec_cch(&self) -> Self::CCH;

    /// Offsets, heads and weights of the upward graph.
    spec fn spec_forward_graph(&self) -> (Seq<u32>, Seq<u32>, Seq<u32>);

    /// Offsets, heads and weights of the downward graph.
    spec fn spec_backward_graph(&self) -> (Seq<u32>, Seq<u32>, Seq<u32>);

    spec fn spec_forward_tail(&self) -> Seq<u32>;

    spec fn spec_backward_tail(&self) -> Seq<u32>;

    spec fn spec_up_unpacking(&self) -> Seq<(Option<u32>, Option<u32>)>;

    spec fn spec_down_unpacking(&self) -> Seq<(Option<u32>, Option<u32>)>;

    fn forward_graph(&self) -> (g: BorrowedGraph<'_>)
        ensures
            (g.first_out@, g.head@, g.weight@) == self.spec_forward_graph(),
    ;

    fn backward_graph(&self) -> (g: BorrowedGraph<'_>)
        ensures
            (g.first_out@, g.head@, g.weight@) == self.spec_backward_graph(),
    ;

    fn cch(&self) -> (c: &Self::CCH)
        ensures
            *c == self.spec_cch(),
    ;

    /// The triangle an upward arc was relaxed through.
    fn unpack_outgoing(&self, edge: u32) -> (r: Option<(u32, u32, u32)>)
        requires
            (edge as int) < self.spec_up_unpacking().len(),
            followable(self.spec_up_unpacking()[edge as int], self.spec_backward_tail().len() as int),
        ensures
            r == unpacked(self.spec_up_unpacking()[edge as int], self.spec_backward_tail()),
    ;

    /// The triangle a downward arc was relaxed through.
    fn unpack_incoming(&self, edge: u32) -> (r: Option<(u32, u32, u32)>)
        requires
            (edge as int) < self.spec_down_unpacking().len(),
            followable(self.spec_down_unpacking()[edge as int], self.spec_backward_tail().len() as int),
        ensures
            r == unpacked(self.spec_down_unpacking()[edge as int], self.spec_backward_tail()),
    ;

    fn forward_tail(&self) -> (r: &Vec<u32>)
        ensures
            r@ == self.spec_forward_tail(),
    ;

    fn backward_tail(&self) -> (r: &Vec<u32>)
        ensures
            r@ == self.spec_backward_tail(),
    ;

    fn forward_unpacking(&self) -> (r: &Vec<(Option<u32>, Option<u32>)>)
        ensures
            r@ == self.spec_up_unpacking(),
    ;

    fn backward_unpacking(&self) -> (r: &Vec<(Option<u32>, Option<u32>)>)
        ensures
            r@ == self.spec_down_unpacking(),
    ;
}

/// Looks up an unpacking entry.
fn unpack_entry(unpacking: &Vec<(Option<u32>, Option<u32>)>, backward_tail: &Vec<u32>, edge: u32) -> (r: Option<(u32, u32, u32)>)
    requires
        (edge as int) < unpacking@.len(),
        followable(unpacking@[edge as int], backward_tail@.len() as int),
    ensures
        r == unpacked(unpacking@[edge as int], backward_tail@),
{
    let (down, up) = unpacking[edge as usize];
    match down {
        Some(down) => {
            let middle = backward_tail[down as usize];
            Some((down, up.unwrap(), middle))
        },
        None => None,
    }
}

/// Customization weights on the arcs of a CCH.
pub struct CustomizedBasic<'a, C> {
    pub cch: &'a C,
    upward: Vec<u32>,
    downward: Vec<u32>,
    up_unpacking: Vec<(Option<u32>, Option<u32>)>,
    down_unpacking: Vec<(Option<u32>, Option<u32>)>,
}

impl<'a, C: CCHT> CustomizedBasic<'a, C> {
    pub closed spec fn spec_upward(&self) -> Seq<u32> {
        self.upward@
    }

    pub closed spec fn spec_downward(&self) -> Seq<u32> {
        self.downward@
    }

    pub fn new(
        cch: &'a C,
        upward: Vec<u32>,
        downward: Vec<u32>,
        up_unpacking: Vec<(Option<u32>, Option<u32>)>,
        down_unpacking: Vec<(Option<u32>, Option<u32>)>,
    ) -> (c: Self)
        ensures
            c.spec_cch() == *cch,
            c.spec_upward() == upward@,
            c.spec_downward() == downward@,
            c.spec_forward_graph() == (cch.spec_fw_first_out(), cch.spec_fw_head(), upward@),
            c.spec_backward_graph() == (cch.spec_bw_first_out(), cch.spec_bw_head(), downward@),
            c.spec_forward_tail() == cch.spec_fw_tail(),
            c.spec_backward_tail() == cch.spec_bw_tail(),
            c.spec_up_unpacking() == up_unpacking@,
            c.spec_down_unpacking() == down_unpacking@,
    {
        CustomizedBasic { cch, upward, downward, up_unpacking, down_unpacking }
    }

    /// Gives up the customization and keeps its weights: those of the upward
    /// graph first, then those of the downward graph, unchanged.
    pub fn into_weights(self) -> (weights: (Vec<u32>, Vec<u32>))
        ensures
            weights.0@ == self.spec_upward(),
            weights.1@ == self.spec_downward(),
            weights.0@ == self.spec_forward_graph().2,
            weights.1@ == self.spec_backward_graph().2,
    {
        (self.upward, self.downward)
    }
}

impl<'a, C: CCHT> Customized for CustomizedBasic<'a, C> {
    type CCH = C;

    closed spec fn spec_cch(&self) -> C {
        *self.cch
    }

    closed spec fn spec_forward_graph(&self) -> (Seq<u32>, Seq<u32>, Seq<u32>) {
        (self.cch.spec_fw_first_out(), self.cch.spec_fw_head(), self.spec_upward())
    }

    closed spec fn spec_backward_graph(&self) -> (Seq<u32>, Seq<u32>, Seq<u32>) {
        (self.cch.spec_bw_first_out(), self.cch.spec_bw_head(), self.spec_downward())
    }

    closed spec fn spec_forward_tail(&self) -> Seq<u32> {
        self.cch.spec_fw_tail()
    }

    closed spec fn spec_backward_tail(&self) -> Seq<u32> {
        self.cch.spec_bw_tail()
    }

    closed spec fn spec_up_unpacking(&self) -> Seq<(Option<u32>, Option<u32>)> {
        self.up_unpacking@
    }

    closed spec fn spec_down_unpacking(&self) -> Seq<(Option<u32>, Option<u32>)> {
        self.down_unpacking@
    }

    fn forward_graph(&self) -> (g: BorrowedGraph<'_>) {
        BorrowedGraph { first_out: self.cch.forward_first_out(), head: self.cch.forward_head(), weight: &self.upward }
    }

    fn backward_graph(&self) -> (g: BorrowedGraph<'_>) {
        BorrowedGraph { first_out: self.cch.backward_first_out(), head: self.cch.backward_head(), weight: &self.downward }
    }

    fn cch(&self) -> (c: &C) {
        self.cch
    }

    fn unpack_outgoing(&self, edge: u32) -> (r: Option<(u32, u32, u32)>) {
        unpack_entry(&self.up_unpacking, self.cch.backward_tail(), edge)
    }

    fn unpack_incoming(&self, edge: u32) -> (r: Option<(u32, u32, u32)>) {
        unpack_entry(&self.down_unpacking, self.cch.backward_tail(), edge)
    }

    fn forward_tail(&self) -> (r: &Vec<u32>) {
        self.cch.forward_tail()
    }

    fn backward_tail(&self) -> (r: &Vec<u32>) {
        self.cch.backward_tail()
    }

    fn forward_unpacking(&self) -> (r: &Vec<(Option<u32>, Option<u32>)>) {
        &self.up_unpacking
    }

    fn backward_unpacking(&self) -> (r: &Vec<(Option<u32>, Option<u32>)>) {
        &self.down_unpacking
    }
}

/// The tails of a loaded CSR graph (none when it has no offsets).
pub fn graph_tails(first_out: &Vec<u32>) -> (tails: Vec<u32>)
    requires
        offsets_monotone(first_out@),
        first_out@.len() <= u32::MAX + 2,
    ensures
        tails_for(first_out@, tails@),
{
    if first_out.len() == 0 {
        Vec::new()
    } else {
        tails_from_first_out(first_out)
    }
}

/// A customization whose arcs that are never part of a shortest path were
/// removed, so it owns its graphs and their tails.
pub struct CustomizedPerfect<'a, C> {
    pub cch: &'a C,
    upward: OwnedGraph,
    downward: OwnedGraph,
    up_unpacking: Vec<(Option<u32>, Option<u32>)>,
    down_unpacking: Vec<(Option<u32>, Option<u32>)>,
    forward_tail: Vec<u32>,
    backward_tail: Vec<u32>,
}

impl<'a, C: CCHT> CustomizedPerfect<'a, C> {
    pub closed spec fn spec_upward(&self) -> OwnedGraph {
        self.upward
    }

    pub closed spec fn spec_downward(&self) -> OwnedGraph {
        self.downward
    }

    pub fn new(
        cch: &'a C,
        upward: OwnedGraph,
        downward: OwnedGraph,
        up_unpacking: Vec<(Option<u32>, Option<u32>)>,
        down_unpacking: Vec<(Option<u32>, Option<u32>)>,
        forward_tail: Vec<u32>,
        backward_tail: Vec<u32>,
    ) -> (c: Self)
        ensures
            c.spec_cch() == *cch,
            c.spec_upward() == upward,
            c.spec_downward() == downward,
            c.spec_forward_graph() == (upward.spec_first_out(), upward.spec_head(), upward.spec_weight()),
            c.spec_backward_graph() == (downward.spec_first_out(), downward.spec_head(), downward.spec_weight()),
            c.spec_up_unpacking() == up_unpacking@,
            c.spec_down_unpacking() == down_unpacking@,
            c.spec_forward_tail() == forward_tail@,
            c.spec_backward_tail() == backward_tail@,
    {
        CustomizedPerfect { cch, upward, downward, up_unpacking, down_unpacking, forward_tail, backward_tail }
    }

    /// Reassembles a stored customization: the graphs and unpackings as
    /// loaded, the tails recomputed from the graphs' offsets.
    pub fn reconstruct_with(
        cch: &'a C,
        upward: OwnedGraph,
        downward: OwnedGraph,
        up_unpacking: Vec<(Option<u32>, Option<u32>)>,
        down_unpacking: Vec<(Option<u32>, Option<u32>)>,
    ) -> (c: Self)
        requires
            offsets_monotone(upward.spec_first_out()),
            offsets_monotone(downward.spec_first_out()),
            upward.spec_first_out().len() <= u32::MAX + 2,
            downward.spec_first_out().len() <= u32::MAX + 2,
        ensures
            c.spec_cch() == *cch,
            c.spec_upward() == upward,
            c.spec_downward() == downward,
            c.spec_forward_graph() == (upward.spec_first_out(), upward.spec_head(), upward.spec_weight()),
            c.spec_backward_graph() == (downward.spec_first_out(), downward.spec_head(), downward.spec_weight()),
            c.spec_up_unpacking() == up_unpacking@,
            c.spec_down_unpacking() == down_unpacking@,
            tails_for(upward.spec_first_out(), c.spec_forward_tail()),
            tails_for(downward.spec_first_out(), c.spec_backward_tail()),
    {
        let forward_tail = graph_tails(upward.first_out());
        let backward_tail = graph_tails(downward.first_out());
        Self::new(cch, upward, downward, up_unpacking, down_unpacking, forward_tail, backward_tail)
    }
}

impl<'a, C: CCHT> Customized for CustomizedPerfect<'a, C> {
    type CCH = C;

    closed spec fn spec_cch(&self) -> C {
        *self.cch
    }

    closed spec fn spec_forward_graph(&self) -> (Seq<u32>, Seq<u32>, Seq<u32>) {
        (self.spec_upward().spec_first_out(), self.spec_upward().spec_head(), self.spec_upward().spec_weight())
    }

    closed spec fn spec_backward_graph(&self) -> (Seq<u32>, Seq<u32>, Seq<u32>) {
        (self.spec_downward().spec_first_out(), self.spec_downward().spec_head(), self.spec_downward().spec_weight())
    }

    closed spec fn spec_forward_tail(&self) -> Seq<u32> {
        self.forward_tail@
    }

    closed spec fn spec_backward_tail(&self) -> Seq<u32> {
        self.backward_tail@
    }

    closed spec fn spec_up_unpacking(&self) -> Seq<(Option<u32>, Option<u32>)> {
        self.up_unpacking@
    }

    closed spec fn spec_down_unpacking(&self) -> Seq<(Option<u32>, Option<u32>)> {
        self.down_unpacking@
    }

    fn forward_graph(&self) -> (g: BorrowedGraph<'_>) {
        self.upward.borrowed()
    }

    fn backward_graph(&self) -> (g: BorrowedGraph<'_>) {
        self.downward.borrowed()
    }

    fn cch(&self) -> (c: &C) {
        self.cch
    }

    fn unpack_outgoing(&self, edge: u32) -> (r: Option<(u32, u32, u32)>) {
        unpack_entry(&self.up_unpacking, &self.backward_tail, edge)
    }

    fn unpack_incoming(&self, edge: u32) -> (r: Option<(u32, u32, u32)>) {
        unpack_entry(&self.down_unpacking, &self.backward_tail, edge)
    }

    fn forward_tail(&self) -> (r: &Vec<u32>) {
        &self.forward_tail
    }

    fn backward_tail(&self) -> (r: &Vec<u32>) {
        &self.backward_tail
    }

    fn forward_unpacking(&self) -> (r: &Vec<(Option<u32>, Option<u32>)>) {
        &self.up_unpacking
    }

    fn backward_unpacking(&self) -> (r: &Vec<(Option<u32>, Option<u32>)>) {
        &self.down_unpacking
    }
}

/// A basic customization of a CCH built by contraction (its upward lists
/// are the elimination graph and its elimination tree is read from them)
/// is chordal, so its first meeting candidate is the shortest up-down
/// distance.
pub proof fn lemma_contracted_customization_chordal(c: &CustomizedBasic<'_, CCH>, first_out: Seq<u32>, head: Seq<u32>)
    requires
        c.spec_cch().wf(),
        is_elimination_graph(first_out, head, c.spec_cch().spec_order().rank_seq(), c.spec_cch().spec_upward_lists()),
        elimination_tree_of(c.spec_cch().spec_first_out(), c.spec_cch().spec_head(), c.spec_cch().spec_elimination_tree()),
    ensures
        chordal_customization(c),
{
    lemma_chordal_from_cliques(c.spec_cch().spec_first_out(), c.spec_cch().spec_head());
}

} // verus!
