//! The metric-independent CCH topology: the chordal supergraph in rank space,
//! its per-arc tails, the elimination tree, the mapping from CCH arcs back to
//! input arcs, and the reversed (downward) view used for triangle
//! enumeration and arc unpacking.

use vstd::prelude::*;
use crate::contraction::{
    all_between, contract_upward, contraction_input, elimination_lists, is_elimination_graph, lemma_elimination_graph_unique,
    lemma_elimination_lists, sets, up_wf,
};
use crate::graph::{
    INFINITY, copy_ids, arc_of_node, arcs_between, csr_wf, group_by_key, groups_by_key, lemma_groups_by_key_facts, lemma_count_total_all, is_arc_set, is_monotone, offsets_monotone,
    lemma_sorted_unique, strictly_sorted, tails_from_first_out,
};
use crate::node_order::NodeOrder;

verus! {

/// Upward neighbours of rank `x` in a CSR graph.
pub open spec fn upward(first_out: Seq<u32>, head: Seq<u32>, x: int) -> Seq<u32> {
    head.subrange(first_out[x] as int, first_out[x + 1] as int)
}

/// All upward lists of a CSR graph.
pub open spec fn upward_lists(first_out: Seq<u32>, head: Seq<u32>) -> Seq<Seq<u32>> {
    Seq::new((first_out.len() - 1) as nat, |x: int| upward(first_out, head, x))
}

/// A CSR graph in rank space whose arcs all point upwards, with every
/// neighbourhood strictly increasing and arc ids starting at zero.
pub open spec fn upward_csr_wf(first_out: Seq<u32>, head: Seq<u32>) -> bool {
    &&& csr_wf(first_out, head.len() as int)
    &&& first_out[0] == 0
    &&& first_out.len() - 1 <= u32::MAX
    &&& up_wf(upward_lists(first_out, head))
}

/// `tail[e]` is the node owning arc `e`.
pub open spec fn tails_match(first_out: Seq<u32>, tail: Seq<u32>) -> bool {
    forall|e: int| 0 <= e < tail.len() ==> #[trigger] arc_of_node(first_out, tail[e] as int, e)
}

/// The parent of rank `x` in the elimination tree is its lowest upward
/// neighbour; ranks without upward neighbours are roots.
pub open spec fn elimination_tree_of(first_out: Seq<u32>, head: Seq<u32>, tree: Seq<Option<u32>>) -> bool {
    &&& tree.len() == first_out.len() - 1
    &&& forall|x: int|
        0 <= x < tree.len() ==> #[trigger] tree[x] == if first_out[x] < first_out[x + 1] {
            Some(head[first_out[x] as int])
        } else {
            None
        }
}

/// Every parent in the tree has a higher rank than its child.
pub open spec fn tree_points_up(tree: Seq<Option<u32>>, n: int) -> bool {
    &&& tree.len() == n
    &&& forall|x: int| 0 <= x < n && (#[trigger] tree[x]).is_some() ==> x < tree[x].unwrap() < n
}

proof fn lemma_tree_points_up(first_out: Seq<u32>, head: Seq<u32>, tree: Seq<Option<u32>>)
    requires
        upward_csr_wf(first_out, head),
        elimination_tree_of(first_out, head, tree),
    ensures
        tree_points_up(tree, first_out.len() - 1),
{
    assert forall|x: int| 0 <= x < first_out.len() - 1 && (#[trigger] tree[x]).is_some() implies x < tree[x].unwrap() < first_out.len() - 1 by {
        lemma_upward_csr_facts(first_out, head, x, first_out[x] as int);
    }
}

/// Sum of the lengths of the first `k` lists.
pub open spec fn prefix_total(s: Seq<Seq<u32>>, k: int) -> int
    decreases k,
{
    if k <= 0 {
        0
    } else {
        prefix_total(s, k - 1) + s[k - 1].len()
    }
}

proof fn lemma_prefix_total_monotone(s: Seq<Seq<u32>>, a: int, b: int)
    requires
        0 <= a <= b,
    ensures
        prefix_total(s, a) <= prefix_total(s, b),
    decreases b - a,
{
    if a < b {
        lemma_prefix_total_monotone(s, a, b - 1);
    }
}

/// Concatenates upward lists into a CSR graph with 32-bit arc ids. Gives
/// `None` exactly when the lists hold more arcs than 32-bit ids can number.
pub fn flatten_upward(up: &Vec<Vec<u32>>) -> (res: Option<(Vec<u32>, Vec<u32>)>)
    ensures
        match res {
            Some((first_out, head)) => {
                &&& first_out@.len() == up@.len() + 1
                &&& csr_wf(first_out@, head@.len() as int)
                &&& first_out@[0] == 0
                &&& upward_lists(first_out@, head@) =~= sets(up@)
            },
            None => prefix_total(sets(up@), up@.len() as int) > u32::MAX,
        },
{
    let n = up.len();
    let mut first_out: Vec<u32> = Vec::new();
    let mut head: Vec<u32> = Vec::new();
    first_out.push(0);
    let mut x: usize = 0;
    while x < n
        invariant
            n == up@.len(),
            x <= n,
            first_out@.len() == x + 1,
            first_out@[0] == 0,
            offsets_monotone(first_out@),
            first_out@[x as int] == head@.len(),
            head@.len() == prefix_total(sets(up@), x as int),
            head@.len() <= u32::MAX,
            forall|y: int| 0 <= y < x ==> #[trigger] upward(first_out@, head@, y) =~= sets(up@)[y],
        decreases n - x,
    {
        let list = &up[x];
        proof {
            assert(sets(up@)[x as int] == list@);
        }
        if list.len() > (u32::MAX as usize) - head.len() {
            proof {
                lemma_prefix_total_monotone(sets(up@), x + 1, n as int);
            }
            return None;
        }
        let ghost base = head@;
        let mut k: usize = 0;
        while k < list.len()
            invariant
                k <= list@.len(),
                head@.len() == base.len() + k,
                head@.subrange(0, base.len() as int) == base,
                forall|j: int| 0 <= j < k ==> head@[base.len() + j] == list@[j],
                base.len() + list@.len() <= u32::MAX,
            decreases list@.len() - k,
        {
            head.push(list[k]);
            k = k + 1;
        }
        let ghost fo_before = first_out@;
        first_out.push(head.len() as u32);
        proof {
            assert forall|y: int| 0 <= y < x + 1 implies #[trigger] upward(first_out@, head@, y) =~= sets(up@)[y] by {
                if y < x {
                    assert(first_out@[y] == fo_before[y]);
                    assert(first_out@[y + 1] == fo_before[y + 1]);
                    assert(fo_before[y + 1] <= fo_before[x as int]);
                    assert(upward(fo_before, base, y) =~= sets(up@)[y]);
                    assert forall|j: int| 0 <= j < upward(first_out@, head@, y).len() implies upward(first_out@, head@, y)[j] == upward(fo_before, base, y)[j] by {
                        assert(head@[fo_before[y] + j] == head@.subrange(0, base.len() as int)[fo_before[y] + j]);
                    }
                } else {
                    assert forall|j: int| 0 <= j < upward(first_out@, head@, y).len() implies upward(first_out@, head@, y)[j] == sets(up@)[y][j] by {
                        assert(head@[base.len() + j] == list@[j]);
                    }
                }
            }
            assert forall|i: int, j: int| 0 <= i <= j < first_out@.len() implies first_out@[i] <= first_out@[j] by {
                if j == x + 1 && i < j {
                    assert(fo_before[i] <= fo_before[x as int]);
                }
            }
        }
        x = x + 1;
    }
    proof {
        assert(upward_lists(first_out@, head@).len() == n);
        assert forall|y: int| 0 <= y < n implies upward_lists(first_out@, head@)[y] == sets(up@)[y] by {
            assert(upward(first_out@, head@, y) =~= sets(up@)[y]);
        }
    }
    Some((first_out, head))
}


/// Builds the elimination tree: every rank's parent is its lowest upward
/// neighbour.
pub fn build_elimination_tree(first_out: &Vec<u32>, head: &Vec<u32>) -> (tree: Vec<Option<u32>>)
    requires
        csr_wf(first_out@, head@.len() as int),
    ensures
        elimination_tree_of(first_out@, head@, tree@),
{
    let n = first_out.len() - 1;
    let mut tree: Vec<Option<u32>> = Vec::new();
    let mut x: usize = 0;
    while x < n
        invariant
            n == first_out@.len() - 1,
            csr_wf(first_out@, head@.len() as int),
            x <= n,
            tree@.len() == x,
            forall|y: int|
                0 <= y < x ==> #[trigger] tree@[y] == if first_out@[y] < first_out@[y + 1] {
                    Some(head@[first_out@[y] as int])
                } else {
                    None
                },
        decreases n - x,
    {
        let start = first_out[x];
        let end = first_out[x + 1];
        if start < end {
            proof {
                assert(first_out@[x + 1] <= first_out@[n as int]);
            }
            tree.push(Some(head[start as usize]));
        } else {
            tree.push(None);
        }
        x = x + 1;
    }
    tree
}

proof fn lemma_tails_nondecreasing(first_out: Seq<u32>, tail: Seq<u32>, a: int, b: int)
    requires
        offsets_monotone(first_out),
        tails_match(first_out, tail),
        0 <= a <= b < tail.len(),
    ensures
        tail[a] <= tail[b],
{
    assert(arc_of_node(first_out, tail[a] as int, a));
    assert(arc_of_node(first_out, tail[b] as int, b));
    if tail[a] > tail[b] {
        assert(first_out[tail[b] + 1] <= first_out[tail[a] as int]);
    }
}

/// The reversed (incoming) view of an upward CSR graph: for every rank `y`,
/// the lower ranks `x` with an arc `x -> y` together with the arc id,
/// sorted by `x`.
pub struct ReversedGraph {
    first_out: Vec<u32>,
    head: Vec<u32>,
    edge_ids: Vec<u32>,
}

impl ReversedGraph {
    /// Offsets of the incoming lists.
    pub closed spec fn spec_first_out(&self) -> Seq<u32> {
        self.first_out@
    }

    /// Lower endpoint of every incoming entry.
    pub closed spec fn spec_head(&self) -> Seq<u32> {
        self.head@
    }

    /// Arc id of every incoming entry.
    pub closed spec fn spec_edge_ids(&self) -> Seq<u32> {
        self.edge_ids@
    }

    /// Incoming list `y` names, in increasing order of lower endpoint, every
    /// arc into `y` with its tail.
    pub open spec fn reverses(&self, first_out: Seq<u32>, head: Seq<u32>, tail: Seq<u32>) -> bool {
        &&& groups_by_key(head, first_out.len() - 1, self.spec_first_out(), self.spec_edge_ids())
        &&& self.spec_head().len() == self.spec_edge_ids().len()
        &&& self.spec_edge_ids().len() == head.len()
        &&& forall|i: int|
            0 <= i < self.spec_head().len() ==> #[trigger] self.spec_head()[i] == tail[self.spec_edge_ids()[i] as int]
        &&& sorted_groups(self.spec_first_out(), self.spec_head())
    }

    /// Builds the reversed view of an upward CSR graph with known tails.
    pub fn reversed(first_out: &Vec<u32>, head: &Vec<u32>, tail: &Vec<u32>) -> (rev: ReversedGraph)
        requires
            upward_csr_wf(first_out@, head@),
            tail@.len() == head@.len(),
            tails_match(first_out@, tail@),
        ensures
            rev.reverses(first_out@, head@, tail@),
    {
        let n = first_out.len() - 1;
        proof {
            assert(head@.len() == first_out@[first_out@.len() - 1]);
        }
        let (rfo, eids) = group_by_key(head, n);
        proof {
            lemma_heads_below(first_out@, head@);
            lemma_count_total_all(head@, n as int, head@.len() as int);
            lemma_groups_by_key_facts(head@, n as int, rfo@, eids@);
            lemma_group_ids_bounded(head@, n as int, rfo@, eids@);
        }
        let rhead = gather(tail, &eids);
        proof {
            assert(rfo@.len() == first_out@.len());
            assert(rfo@[rfo@.len() - 1] == eids@.len());
            lemma_reversed_sorted(first_out@, head@, tail@, rfo@, eids@, rhead@);
        }
        ReversedGraph { first_out: rfo, head: rhead, edge_ids: eids }
    }

    /// Assembles a reversed graph from stored parts, as they are.
    pub fn from_parts(first_out: Vec<u32>, head: Vec<u32>, edge_ids: Vec<u32>) -> (rev: ReversedGraph)
        ensures
            rev.spec_first_out() == first_out@,
            rev.spec_head() == head@,
            rev.spec_edge_ids() == edge_ids@,
    {
        ReversedGraph { first_out, head, edge_ids }
    }

    /// Offsets of the incoming lists.
    pub fn first_out(&self) -> (r: &Vec<u32>)
        ensures
            r@ == self.spec_first_out(),
    {
        &self.first_out
    }

    /// Lower endpoints of all incoming entries.
    pub fn head_slice(&self) -> (r: &Vec<u32>)
        ensures
            r@ == self.spec_head(),
    {
        &self.head
    }

    /// Arc ids of all incoming entries.
    pub fn edge_ids(&self) -> (r: &Vec<u32>)
        ensures
            r@ == self.spec_edge_ids(),
    {
        &self.edge_ids
    }

    /// Number of entries.
    pub fn num_arcs(&self) -> (m: usize)
        ensures
            m == self.spec_head().len(),
    {
        self.head.len()
    }
}

/// `values[ids[j]]` for every `j`.
pub fn gather(values: &Vec<u32>, ids: &Vec<u32>) -> (out: Vec<u32>)
    requires
        forall|j: int| 0 <= j < ids@.len() ==> (#[trigger] ids@[j] as int) < values@.len(),
    ensures
        out@.len() == ids@.len(),
        forall|j: int| 0 <= j < ids@.len() ==> #[trigger] out@[j] == values@[ids@[j] as int],
{
    let mut out: Vec<u32> = Vec::new();
    let mut i: usize = 0;
    while i < ids.len()
        invariant
            forall|j: int| 0 <= j < ids@.len() ==> (#[trigger] ids@[j] as int) < values@.len(),
            i <= ids@.len(),
            out@.len() == i,
            forall|j: int| 0 <= j < i ==> #[trigger] out@[j] == values@[ids@[j] as int],
        decreases ids@.len() - i,
    {
        out.push(values[ids[i] as usize]);
        i = i + 1;
    }
    out
}

/// Within every group of a CSR array, the values strictly increase.
pub open spec fn sorted_groups(first_out: Seq<u32>, values: Seq<u32>) -> bool {
    forall|y: int, a: int, b: int|
        #![trigger values[a], values[b], first_out[y]]
        0 <= y < first_out.len() - 1 && first_out[y] <= a < b < first_out[y + 1] ==> values[a] < values[b]
}

proof fn lemma_group_ids_bounded(keys: Seq<u32>, num_keys: int, offsets: Seq<u32>, ids: Seq<u32>)
    requires
        groups_by_key(keys, num_keys, offsets, ids),
        num_keys >= 0,
    ensures
        forall|j: int| 0 <= j < ids.len() ==> (#[trigger] ids[j] as int) < keys.len(),
{
    lemma_groups_by_key_facts(keys, num_keys, offsets, ids);
    assert forall|j: int| 0 <= j < ids.len() implies (#[trigger] ids[j] as int) < keys.len() by {
        let k = lemma_group_exists(offsets, num_keys, j);
    }
}

pub proof fn lemma_group_exists(offsets: Seq<u32>, num_keys: int, j: int) -> (k: int)
    requires
        offsets.len() == num_keys + 1,
        num_keys >= 0,
        offsets[0] == 0,
        offsets_monotone(offsets),
        0 <= j < offsets[num_keys],
    ensures
        0 <= k < num_keys,
        offsets[k] <= j < offsets[k + 1],
    decreases num_keys,
{
    assert(num_keys > 0);
    if j >= offsets[num_keys - 1] {
        num_keys - 1
    } else {
        let sub = offsets.subrange(0, num_keys);
        assert(sub[num_keys - 1] == offsets[num_keys - 1]);
        assert(offsets_monotone(sub));
        let k = lemma_group_exists(sub, num_keys - 1, j);
        assert(sub[k] == offsets[k] && sub[k + 1] == offsets[k + 1]);
        k
    }
}

proof fn lemma_upward_sorted(first_out: Seq<u32>, head: Seq<u32>, x: int, a: int, b: int)
    requires
        upward_csr_wf(first_out, head),
        0 <= x < first_out.len() - 1,
        first_out[x] <= a < b < first_out[x + 1],
    ensures
        head[a] < head[b],
{
    let ul = upward_lists(first_out, head);
    assert(ul[x] == upward(first_out, head, x));
    assert(strictly_sorted(ul[x]));
    assert(ul[x][a - first_out[x]] == head[a]);
    assert(ul[x][b - first_out[x]] == head[b]);
}

proof fn lemma_reversed_sorted(
    first_out: Seq<u32>,
    head: Seq<u32>,
    tail: Seq<u32>,
    rfo: Seq<u32>,
    eids: Seq<u32>,
    rhead: Seq<u32>,
)
    requires
        upward_csr_wf(first_out, head),
        tail.len() == head.len(),
        tails_match(first_out, tail),
        rfo.len() == first_out.len(),
        offsets_monotone(rfo),
        rfo[rfo.len() - 1] == eids.len(),
        forall|k: int, j: int|
            #![trigger eids[j], rfo[k]]
            0 <= k < rfo.len() - 1 && rfo[k] <= j < rfo[k + 1] ==> (eids[j] as int) < head.len()
                && head[eids[j] as int] == k,
        forall|k: int, i: int, j: int|
            #![trigger eids[i], eids[j], rfo[k]]
            0 <= k < rfo.len() - 1 && rfo[k] <= i < j < rfo[k + 1] ==> eids[i] < eids[j],
        rhead.len() == eids.len(),
        forall|j: int| 0 <= j < rhead.len() ==> #[trigger] rhead[j] == tail[eids[j] as int],
    ensures
        sorted_groups(rfo, rhead),
{
    assert forall|y: int, a: int, b: int|
        #![trigger rhead[a], rhead[b], rfo[y]]
        0 <= y < rfo.len() - 1 && rfo[y] <= a < b < rfo[y + 1] implies rhead[a] < rhead[b] by {
        let ea = eids[a] as int;
        let eb = eids[b] as int;
        assert(eids[a] < eids[b]);
        assert(head[ea] == y && head[eb] == y);
        assert(rhead[a] == tail[ea]);
        assert(rhead[b] == tail[eb]);
        lemma_tails_nondecreasing(first_out, tail, ea, eb);
        assert(tail[ea] <= tail[eb]);
        if tail[ea] == tail[eb] {
            let x = tail[ea] as int;
            assert(arc_of_node(first_out, x, ea));
            assert(arc_of_node(first_out, x, eb));
            lemma_upward_sorted(first_out, head, x, ea, eb);
        }
    }
}


/// The arc lists of every CCH arc map back to exactly the input arcs between
/// the arc's endpoints (as nodes), in the given direction.
pub open spec fn maps_to_input_arcs(
    first_out: Seq<u32>,
    head: Seq<u32>,
    tail: Seq<u32>,
    nodes: Seq<u32>,
    input_first_out: Seq<u32>,
    input_head: Seq<u32>,
    forward: Seq<Seq<u32>>,
    backward: Seq<Seq<u32>>,
) -> bool {
    &&& forward.len() == head.len()
    &&& backward.len() == head.len()
    &&& forall|e: int|
        0 <= e < head.len() ==> is_arc_set(
            input_first_out,
            input_head,
            nodes[tail[e] as int] as int,
            nodes[head[e] as int] as int,
            #[trigger] forward[e],
        )
    &&& forall|e: int|
        0 <= e < head.len() ==> is_arc_set(
            input_first_out,
            input_head,
            nodes[head[e] as int] as int,
            nodes[tail[e] as int] as int,
            #[trigger] backward[e],
        )
}

/// Metric independent CCH data: the chordal supergraph in rank space (arcs
/// point from lower to higher rank), per-arc tails, the node order, the
/// input arcs behind every CCH arc (forward and backward), the elimination
/// tree and the reversed graph.
pub struct CCH {
    first_out: Vec<u32>,
    head: Vec<u32>,
    tail: Vec<u32>,
    node_order: NodeOrder,
    forward_cch_edge_to_orig_arc: Vec<Vec<u32>>,
    backward_cch_edge_to_orig_arc: Vec<Vec<u32>>,
    elimination_tree: Vec<Option<u32>>,
    inverted: ReversedGraph,
}

impl CCH {
    /// CSR offsets of the chordal supergraph.
    pub closed spec fn spec_first_out(&self) -> Seq<u32> {
        self.first_out@
    }

    /// Arc heads of the chordal supergraph.
    pub closed spec fn spec_head(&self) -> Seq<u32> {
        self.head@
    }

    /// Arc tails of the chordal supergraph.
    pub closed spec fn spec_tail(&self) -> Seq<u32> {
        self.tail@
    }

    /// The node order.
    pub closed spec fn spec_order(&self) -> NodeOrder {
        self.node_order
    }

    /// Input arcs behind every CCH arc, in arc direction.
    pub closed spec fn spec_forward_orig(&self) -> Seq<Seq<u32>> {
        sets(self.forward_cch_edge_to_orig_arc@)
    }

    /// Input arcs behind every CCH arc, against arc direction.
    pub closed spec fn spec_backward_orig(&self) -> Seq<Seq<u32>> {
        sets(self.backward_cch_edge_to_orig_arc@)
    }

    /// The elimination tree.
    pub closed spec fn spec_elimination_tree(&self) -> Seq<Option<u32>> {
        self.elimination_tree@
    }

    /// The reversed graph.
    pub closed spec fn spec_inverted(&self) -> ReversedGraph {
        self.inverted
    }

    /// Structural consistency of all parts.
    pub open spec fn wf(&self) -> bool {
        &&& upward_csr_wf(self.spec_first_out(), self.spec_head())
        &&& self.spec_order().wf()
        &&& self.spec_first_out().len() - 1 == self.spec_order().spec_len()
        &&& self.spec_tail().len() == self.spec_head().len()
        &&& tails_match(self.spec_first_out(), self.spec_tail())
        &&& tree_points_up(self.spec_elimination_tree(), self.spec_first_out().len() - 1)
        &&& self.spec_inverted().reverses(self.spec_first_out(), self.spec_head(), self.spec_tail())
        &&& self.spec_forward_orig().len() == self.spec_head().len()
        &&& self.spec_backward_orig().len() == self.spec_head().len()
    }

    /// The CCH was built over the input graph `(first_out, head)`: its arc
    /// maps name exactly the input arcs behind every CCH arc.
    pub open spec fn built_over(&self, input_first_out: Seq<u32>, input_head: Seq<u32>) -> bool {
        maps_to_input_arcs(
            self.spec_first_out(),
            self.spec_head(),
            self.spec_tail(),
            self.spec_order().nodes(),
            input_first_out,
            input_head,
            self.spec_forward_orig(),
            self.spec_backward_orig(),
        )
    }

    /// The upward lists of the chordal supergraph.
    pub open spec fn spec_upward_lists(&self) -> Seq<Seq<u32>> {
        upward_lists(self.spec_first_out(), self.spec_head())
    }

    /// Creates all auxiliary structures from an upward CSR graph in rank
    /// space over the input graph.
    pub fn new_from(
        input_first_out: &Vec<u32>,
        input_head: &Vec<u32>,
        node_order: NodeOrder,
        first_out: Vec<u32>,
        head: Vec<u32>,
    ) -> (cch: CCH)
        requires
            csr_wf(input_first_out@, input_head@.len() as int),
            node_order.wf(),
            input_first_out@.len() - 1 == node_order.spec_len(),
            upward_csr_wf(first_out@, head@),
            first_out@.len() - 1 == node_order.spec_len(),
        ensures
            cch.wf(),
            cch.built_over(input_first_out@, input_head@),
            elimination_tree_of(first_out@, head@, cch.spec_elimination_tree()),
            cch.spec_first_out() == first_out@,
            cch.spec_head() == head@,
            cch.spec_order() == node_order,
    {
        let elimination_tree = build_elimination_tree(&first_out, &head);
        let tail = tails_from_first_out(&first_out);
        let m = head.len();
        proof {
            assert forall|f: int| 0 <= f < tail@.len() implies #[trigger] arc_of_node(first_out@, tail@[f] as int, f) by {
                assert(arc_of_node(first_out@, tail@[f] as int, f + first_out@[0]));
            }
        }
        let mut forward: Vec<Vec<u32>> = Vec::new();
        let mut backward: Vec<Vec<u32>> = Vec::new();
        let mut e: usize = 0;
        while e < m
            invariant
                m == head@.len(),
                csr_wf(input_first_out@, input_head@.len() as int),
                node_order.wf(),
                input_first_out@.len() - 1 == node_order.spec_len(),
                upward_csr_wf(first_out@, head@),
                first_out@.len() - 1 == node_order.spec_len(),
                tail@.len() == m,
                tails_match(first_out@, tail@),
                e <= m,
                forward@.len() == e,
                backward@.len() == e,
                forall|f: int|
                    0 <= f < e ==> is_arc_set(
                        input_first_out@,
                        input_head@,
                        node_order.nodes()[tail@[f] as int] as int,
                        node_order.nodes()[head@[f] as int] as int,
                        #[trigger] sets(forward@)[f],
                    ),
                forall|f: int|
                    0 <= f < e ==> is_arc_set(
                        input_first_out@,
                        input_head@,
                        node_order.nodes()[head@[f] as int] as int,
                        node_order.nodes()[tail@[f] as int] as int,
                        #[trigger] sets(backward@)[f],
                    ),
            decreases m - e,
        {
            proof {
                assert(arc_of_node(first_out@, tail@[e as int] as int, e as int));
                let ul = upward_lists(first_out@, head@);
                let x = tail@[e as int] as int;
                assert(ul[x] == upward(first_out@, head@, x));
                assert(all_between(ul[x], x, ul.len() as int));
                assert(ul[x][e - first_out@[x]] == head@[e as int]);
            }
            let x = tail[e];
            let y = head[e];
            let u = node_order.node(x);
            let v = node_order.node(y);
            let fw = arcs_between(input_first_out, input_head, u, v);
            let bw = arcs_between(input_first_out, input_head, v, u);
            let ghost fw_before = sets(forward@);
            let ghost bw_before = sets(backward@);
            forward.push(fw);
            backward.push(bw);
            proof {
                assert forall|f: int| 0 <= f < e implies sets(forward@)[f] == fw_before[f] && sets(backward@)[f] == bw_before[f] by {}
                assert(sets(forward@)[e as int] == fw@);
                assert(sets(backward@)[e as int] == bw@);
                assert forall|f: int|
                    0 <= f < e + 1 implies is_arc_set(
                        input_first_out@,
                        input_head@,
                        node_order.nodes()[tail@[f] as int] as int,
                        node_order.nodes()[head@[f] as int] as int,
                        #[trigger] sets(forward@)[f],
                    ) by {
                    if f < e {
                        assert(sets(forward@)[f] == fw_before[f]);
                    }
                }
                assert forall|f: int|
                    0 <= f < e + 1 implies is_arc_set(
                        input_first_out@,
                        input_head@,
                        node_order.nodes()[head@[f] as int] as int,
                        node_order.nodes()[tail@[f] as int] as int,
                        #[trigger] sets(backward@)[f],
                    ) by {
                    if f < e {
                        assert(sets(backward@)[f] == bw_before[f]);
                    }
                }
            }
            e = e + 1;
        }
        let inverted = ReversedGraph::reversed(&first_out, &head, &tail);
        proof {
            lemma_tree_points_up(first_out@, head@, elimination_tree@);
        }
        CCH {
            first_out,
            head,
            tail,
            node_order,
            forward_cch_edge_to_orig_arc: forward,
            backward_cch_edge_to_orig_arc: backward,
            elimination_tree,
            inverted,
        }
    }

    /// Metric independent preprocessing: contracts the input graph along
    /// `node_order` (the elimination game) and builds the CCH. Gives `None`
    /// exactly when the chordal supergraph has more arcs than 32-bit arc ids
    /// can number.
    pub fn contract(first_out: &Vec<u32>, head: &Vec<u32>, node_order: NodeOrder) -> (res: Option<CCH>)
        requires
            contraction_input(first_out@, head@, node_order),
        ensures
            match res {
                Some(cch) => {
                    &&& cch.wf()
                    &&& cch.built_over(first_out@, head@)
                    &&& elimination_tree_of(cch.spec_first_out(), cch.spec_head(), cch.spec_elimination_tree())
                    &&& cch.spec_order() == node_order
                    &&& is_elimination_graph(first_out@, head@, node_order.rank_seq(), cch.spec_upward_lists())
                    &&& cch.spec_upward_lists() == elimination_lists(first_out@, head@, node_order.rank_seq())
                },
                None => exists|up: Seq<Seq<u32>>|
                    is_elimination_graph(first_out@, head@, node_order.rank_seq(), up) && prefix_total(
                        up,
                        up.len() as int,
                    ) > u32::MAX,
            },
    {
        let up = contract_upward(first_out, head, &node_order);
        match flatten_upward(&up) {
            Some((cch_first_out, cch_head)) => {
                proof {
                    assert(upward_lists(cch_first_out@, cch_head@) == sets(up@));
                    assert(cch_first_out@.len() - 1 == node_order.spec_len());
                }
                let cch = CCH::new_from(first_out, head, node_order, cch_first_out, cch_head);
                proof {
                    lemma_elimination_lists(first_out@, head@, node_order.rank_seq(), cch.spec_upward_lists());
                }
                Some(cch)
            },
            None => None,
        }
    }

    /// Builds the CCH for a fixed order (metric independent preprocessing):
    /// the CCH that contraction along exactly this order gives, with the same
    /// upward lists, offsets, heads, tails, arc maps and elimination tree
    /// (`lemma_cch_determined`). The order is used as given.
    pub fn fix_order_and_build(first_out: &Vec<u32>, head: &Vec<u32>, node_order: NodeOrder) -> (res: Option<CCH>)
        requires
            contraction_input(first_out@, head@, node_order),
        ensures
            match res {
                Some(cch) => {
                    &&& cch.wf()
                    &&& cch.built_over(first_out@, head@)
                    &&& elimination_tree_of(cch.spec_first_out(), cch.spec_head(), cch.spec_elimination_tree())
                    &&& cch.spec_order() == node_order
                    &&& is_elimination_graph(first_out@, head@, node_order.rank_seq(), cch.spec_upward_lists())
                    &&& cch.spec_upward_lists() == elimination_lists(first_out@, head@, node_order.rank_seq())
                },
                None => exists|up: Seq<Seq<u32>>|
                    is_elimination_graph(first_out@, head@, node_order.rank_seq(), up) && prefix_total(
                        up,
                        up.len() as int,
                    ) > u32::MAX,
            },
    {
        CCH::contract(first_out, head, node_order)
    }
}


/// Whether a loaded CSR graph is an upward graph in rank space.
pub fn is_upward_csr(first_out: &Vec<u32>, head: &Vec<u32>) -> (res: bool)
    ensures
        res == upward_csr_wf(first_out@, head@),
{
    if first_out.len() == 0 {
        return false;
    }
    let n = first_out.len() - 1;
    if first_out[0] != 0 || first_out[n] as usize != head.len() || !is_monotone(first_out) {
        return false;
    }
    if n > 4294967295usize {
        return false;
    }
    let mut x: usize = 0;
    while x < n
        invariant
            n == first_out@.len() - 1,
            n <= u32::MAX,
            x <= n,
            csr_wf(first_out@, head@.len() as int),
            first_out@[0] == 0,
            forall|y: int, a: int|
                #![trigger first_out@[y], head@[a]]
                0 <= y < x && first_out@[y] <= a < first_out@[y + 1] ==> y < head@[a] < n,
            forall|y: int, a: int, b: int|
                #![trigger first_out@[y], head@[a], head@[b]]
                0 <= y < x && first_out@[y] <= a < b < first_out@[y + 1] ==> head@[a] < head@[b],
        decreases n - x,
    {
        let start = first_out[x];
        let end = first_out[x + 1];
        proof {
            assert(first_out@[x + 1] <= first_out@[n as int]);
        }
        let mut a = start;
        while a < end
            invariant
                n == first_out@.len() - 1,
                x < n,
                start == first_out@[x as int],
                end == first_out@[x + 1],
                start <= a <= end,
                end <= head@.len(),
                forall|c: int| start <= c < a ==> x < (#[trigger] head@[c]) < n,
                forall|c: int, d: int| start <= c < d < a ==> #[trigger] head@[c] < #[trigger] head@[d],
            decreases end - a,
        {
            let h = head[a as usize];
            if (h as usize) <= x || h as usize >= n {
                proof {
                    if upward_csr_wf(first_out@, head@) {
                        lemma_upward_csr_facts(first_out@, head@, x as int, a as int);
                    }
                }
                return false;
            }
            if a > start && head[(a - 1) as usize] >= h {
                proof {
                    if upward_csr_wf(first_out@, head@) {
                        lemma_upward_sorted(first_out@, head@, x as int, a - 1, a as int);
                    }
                }
                return false;
            }
            a = a + 1;
        }
        proof {
            assert forall|y: int, c: int|
                #![trigger first_out@[y], head@[c]]
                0 <= y < x + 1 && first_out@[y] <= c < first_out@[y + 1] implies y < head@[c] < n by {
                if y == x {
                    assert(head@[c] == head@[c]);
                }
            }
            assert forall|y: int, c: int, d: int|
                #![trigger first_out@[y], head@[c], head@[d]]
                0 <= y < x + 1 && first_out@[y] <= c < d < first_out@[y + 1] implies head@[c] < head@[d] by {
                if y == x {
                    assert(head@[c] < head@[d]);
                }
            }
        }
        x = x + 1;
    }
    proof {
        lemma_upward_csr_from_facts(first_out@, head@);
    }
    true
}

/// Rebuilds a CCH over an input graph from its stored upward graph and
/// node order.
pub struct CCHReconstrctor<'g>(pub &'g Vec<u32>, pub &'g Vec<u32>);

impl<'g> CCHReconstrctor<'g> {
    /// Rebuilds the CCH over the input graph `(self.0, self.1)` (offsets and
    /// heads) from a stored order and upward graph; `None` when the stored
    /// graph is not an upward graph in rank space.
    pub fn reconstruct_with(self, node_order: NodeOrder, first_out: Vec<u32>, head: Vec<u32>) -> (res: Option<CCH>)
        requires
            csr_wf(self.0@, self.1@.len() as int),
            node_order.wf(),
            node_order.spec_len() == self.0@.len() - 1,
            first_out@.len() == self.0@.len(),
        ensures
            match res {
                Some(cch) => {
                    &&& upward_csr_wf(first_out@, head@)
                    &&& cch.wf()
                    &&& cch.built_over(self.0@, self.1@)
                    &&& elimination_tree_of(first_out@, head@, cch.spec_elimination_tree())
                    &&& cch.spec_first_out() == first_out@
                    &&& cch.spec_head() == head@
                    &&& cch.spec_order() == node_order
                },
                None => !upward_csr_wf(first_out@, head@),
            },
    {
        if !is_upward_csr(&first_out, &head) {
            return None;
        }
        Some(CCH::new_from(self.0, self.1, node_order, first_out, head))
    }
}

/// Builds `upward_csr_wf` from its pointwise facts.
pub proof fn lemma_upward_csr_from_facts(first_out: Seq<u32>, head: Seq<u32>)
    requires
        csr_wf(first_out, head.len() as int),
        first_out[0] == 0,
        first_out.len() - 1 <= u32::MAX,
        forall|x: int, a: int|
            #![trigger first_out[x], head[a]]
            0 <= x < first_out.len() - 1 && first_out[x] <= a < first_out[x + 1] ==> x < head[a] < first_out.len() - 1,
        forall|x: int, a: int, b: int|
            #![trigger first_out[x], head[a], head[b]]
            0 <= x < first_out.len() - 1 && first_out[x] <= a < b < first_out[x + 1] ==> head[a] < head[b],
    ensures
        upward_csr_wf(first_out, head),
{
    let ul = upward_lists(first_out, head);
    let n = first_out.len() - 1;
    assert forall|x: int| 0 <= x < ul.len() implies strictly_sorted(#[trigger] ul[x]) && all_between(ul[x], x, ul.len() as int) by {
        assert(ul[x] == upward(first_out, head, x));
        assert(first_out[x + 1] <= first_out[n]);
        assert(first_out[x] <= first_out[x + 1]);
        assert forall|i: int, j: int| 0 <= i < j < ul[x].len() implies ul[x][i] < ul[x][j] by {
            assert(ul[x][i] == head[first_out[x] + i]);
            assert(ul[x][j] == head[first_out[x] + j]);
        }
        assert forall|k: int| 0 <= k < ul[x].len() implies x < #[trigger] ul[x][k] < ul.len() by {
            assert(ul[x][k] == head[first_out[x] + k]);
        }
    }
}

/// The pointwise facts packed in `upward_csr_wf`.
pub proof fn lemma_upward_csr_facts(first_out: Seq<u32>, head: Seq<u32>, x: int, a: int)
    requires
        upward_csr_wf(first_out, head),
        0 <= x < first_out.len() - 1,
        first_out[x] <= a < first_out[x + 1],
    ensures
        x < head[a] < first_out.len() - 1,
        a < head.len(),
{
    let ul = upward_lists(first_out, head);
    assert(ul[x] == upward(first_out, head, x));
    assert(all_between(ul[x], x, ul.len() as int));
    assert(first_out[x + 1] <= first_out[first_out.len() - 1]);
    assert(ul[x][a - first_out[x]] == head[a]);
}

/// `(first_out2, head2, tail2, maps2)` keeps, in order, exactly the arcs `e`
/// of `(first_out, head, tail, maps)` with `keep[e]`; `origin[j]` is the arc
/// that kept arc `j` comes from.
pub open spec fn filtered_from(
    head: Seq<u32>,
    tail: Seq<u32>,
    maps: Seq<Seq<u32>>,
    keep: Seq<bool>,
    head2: Seq<u32>,
    tail2: Seq<u32>,
    maps2: Seq<Seq<u32>>,
    origin: Seq<u32>,
) -> bool {
    &&& origin.len() == head2.len()
    &&& tail2.len() == head2.len()
    &&& maps2.len() == head2.len()
    &&& forall|j: int|
        0 <= j < origin.len() ==> (#[trigger] origin[j] as int) < head.len() && keep[origin[j] as int] && head2[j]
            == head[origin[j] as int] && tail2[j] == tail[origin[j] as int] && maps2[j] == maps[origin[j] as int]
    &&& forall|i: int, j: int| 0 <= i < j < origin.len() ==> #[trigger] origin[i] < #[trigger] origin[j]
    &&& forall|e: int| 0 <= e < head.len() && #[trigger] keep[e] ==> exists|j: int| 0 <= j < origin.len() && origin[j] == e
}

/// The positions of the set flags, in increasing order: the arcs a
/// filtering by `keep` keeps.
pub open spec fn kept_arcs(keep: Seq<bool>) -> Seq<u32>
    decreases keep.len(),
{
    if keep.len() == 0 {
        Seq::empty()
    } else if keep.last() {
        kept_arcs(keep.drop_last()).push((keep.len() - 1) as u32)
    } else {
        kept_arcs(keep.drop_last())
    }
}

/// `kept_arcs` lists, in increasing order, exactly the set positions.
pub proof fn lemma_kept_arcs(keep: Seq<bool>)
    requires
        keep.len() <= u32::MAX + 1,
    ensures
        strictly_sorted(kept_arcs(keep)),
        forall|k: int| 0 <= k < kept_arcs(keep).len() ==> (#[trigger] kept_arcs(keep)[k] as int) < keep.len(),
        forall|x: u32| kept_arcs(keep).contains(x) <==> ((x as int) < keep.len() && keep[x as int]),
    decreases keep.len(),
{
    if keep.len() > 0 {
        let p = keep.drop_last();
        lemma_kept_arcs(p);
        let r = kept_arcs(p);
        let last = (keep.len() - 1) as u32;
        if keep.last() {
            let s = r.push(last);
            assert forall|x: u32| s.contains(x) <==> ((x as int) < keep.len() && keep[x as int]) by {
                if s.contains(x) {
                    let k = choose|k: int| 0 <= k < s.len() && s[k] == x;
                    if k < r.len() {
                        assert(r.contains(x));
                        assert(p[x as int] == keep[x as int]);
                    }
                }
                if (x as int) < keep.len() && keep[x as int] {
                    if (x as int) < p.len() {
                        assert(p[x as int] == keep[x as int]);
                        let k = choose|k: int| 0 <= k < r.len() && r[k] == x;
                        assert(s[k] == x);
                    } else {
                        assert(s[r.len() as int] == x);
                    }
                }
            }
        } else {
            assert forall|x: u32| r.contains(x) <==> ((x as int) < keep.len() && keep[x as int]) by {
                if r.contains(x) {
                    assert(p[x as int] == keep[x as int]);
                }
                if (x as int) < keep.len() && keep[x as int] {
                    assert(p[x as int] == keep[x as int]);
                }
            }
        }
    }
}

/// The arcs a filtering keeps are `kept_arcs` of its flags.
pub proof fn lemma_origin_is_kept_arcs(
    head: Seq<u32>,
    tail: Seq<u32>,
    maps: Seq<Seq<u32>>,
    keep: Seq<bool>,
    head2: Seq<u32>,
    tail2: Seq<u32>,
    maps2: Seq<Seq<u32>>,
    origin: Seq<u32>,
)
    requires
        filtered_from(head, tail, maps, keep, head2, tail2, maps2, origin),
        keep.len() == head.len(),
        head.len() <= u32::MAX,
    ensures
        origin == kept_arcs(keep),
{
    lemma_kept_arcs(keep);
    let k = kept_arcs(keep);
    assert forall|x: u32| origin.contains(x) <==> k.contains(x) by {
        if origin.contains(x) {
            let j = choose|j: int| 0 <= j < origin.len() && origin[j] == x;
            assert((origin[j] as int) < head.len() && keep[origin[j] as int]);
        }
        if k.contains(x) {
            assert(keep[x as int]);
            let j = choose|j: int| 0 <= j < origin.len() && origin[j] == x as int;
            assert(origin[j] == x);
        }
    }
    lemma_sorted_unique(origin, k);
}

/// Keeps the arcs `e` with `keep[e]` of an upward CSR graph, with their tails
/// and arc maps.
pub(crate) fn filter_arcs(
    first_out: &Vec<u32>,
    head: &Vec<u32>,
    tail: &Vec<u32>,
    maps: &Vec<Vec<u32>>,
    keep: &Vec<bool>,
) -> (res: (Vec<u32>, Vec<u32>, Vec<u32>, Vec<Vec<u32>>, Vec<u32>))
    requires
        upward_csr_wf(first_out@, head@),
        tails_match(first_out@, tail@),
        tail@.len() == head@.len(),
        maps@.len() == head@.len(),
        keep@.len() == head@.len(),
    ensures
        res.0@.len() == first_out@.len(),
        upward_csr_wf(res.0@, res.1@),
        tails_match(res.0@, res.2@),
        filtered_from(head@, tail@, sets(maps@), keep@, res.1@, res.2@, sets(res.3@), res.4@),
        res.4@ == kept_arcs(keep@),
{
    let n = first_out.len() - 1;
    let mut fo2: Vec<u32> = Vec::new();
    let mut head2: Vec<u32> = Vec::new();
    let mut tail2: Vec<u32> = Vec::new();
    let mut maps2: Vec<Vec<u32>> = Vec::new();
    let mut origin: Vec<u32> = Vec::new();
    fo2.push(0);
    let mut x: usize = 0;
    while x < n
        invariant
            n == first_out@.len() - 1,
            upward_csr_wf(first_out@, head@),
            tails_match(first_out@, tail@),
            tail@.len() == head@.len(),
            maps@.len() == head@.len(),
            keep@.len() == head@.len(),
            x <= n,
            fo2@.len() == x + 1,
            fo2@[0] == 0,
            offsets_monotone(fo2@),
            fo2@[x as int] == head2@.len(),
            head2@.len() <= first_out@[x as int],
            forall|j: int| 0 <= j < head2@.len() ==> #[trigger] arc_of_node(fo2@, tail2@[j] as int, j),
            forall|j: int| 0 <= j < head2@.len() ==> (#[trigger] origin@[j]) < first_out@[x as int],
            forall|e: int| 0 <= e < first_out@[x as int] && #[trigger] keep@[e] ==> exists|j: int|
                0 <= j < origin@.len() && origin@[j] == e,
            forall|j: int|
                0 <= j < origin@.len() ==> (#[trigger] origin@[j] as int) < head@.len() && keep@[origin@[j] as int] && head2@[j]
                    == head@[origin@[j] as int] && tail2@[j] == tail@[origin@[j] as int] && sets(maps2@)[j] == sets(maps@)[origin@[j] as int],
            forall|i: int, j: int| 0 <= i < j < origin@.len() ==> #[trigger] origin@[i] < #[trigger] origin@[j],
            origin@.len() == head2@.len(),
            tail2@.len() == head2@.len(),
            maps2@.len() == head2@.len(),
        decreases n - x,
    {
        let start = first_out[x];
        let end = first_out[x + 1];
        proof {
            assert(first_out@[x + 1] <= first_out@[n as int]);
        }
        let mut e = start;
        while e < end
            invariant
                n == first_out@.len() - 1,
                x < n,
                upward_csr_wf(first_out@, head@),
                tails_match(first_out@, tail@),
                tail@.len() == head@.len(),
                maps@.len() == head@.len(),
                keep@.len() == head@.len(),
                start == first_out@[x as int],
                end == first_out@[x + 1],
                end <= head@.len(),
                start <= e <= end,
                fo2@.len() == x + 1,
                fo2@[0] == 0,
                offsets_monotone(fo2@),
                fo2@[x as int] <= head2@.len(),
                head2@.len() <= e,
                head2@.len() <= u32::MAX,
                forall|j: int| 0 <= j < fo2@[x as int] ==> #[trigger] arc_of_node(fo2@, tail2@[j] as int, j),
                forall|j: int| fo2@[x as int] <= j < head2@.len() ==> #[trigger] tail2@[j] == x,
                forall|j: int| 0 <= j < head2@.len() ==> (#[trigger] origin@[j]) < e,
                forall|f: int| 0 <= f < e && #[trigger] keep@[f] ==> exists|j: int|
                    0 <= j < origin@.len() && origin@[j] == f,
                forall|j: int|
                    0 <= j < origin@.len() ==> (#[trigger] origin@[j] as int) < head@.len() && keep@[origin@[j] as int] && head2@[j]
                        == head@[origin@[j] as int] && tail2@[j] == tail@[origin@[j] as int] && sets(maps2@)[j] == sets(maps@)[origin@[j] as int],
                forall|i: int, j: int| 0 <= i < j < origin@.len() ==> #[trigger] origin@[i] < #[trigger] origin@[j],
                origin@.len() == head2@.len(),
                tail2@.len() == head2@.len(),
                maps2@.len() == head2@.len(),
            decreases end - e,
        {
            if keep[e as usize] {
                proof {
                    assert(arc_of_node(first_out@, tail@[e as int] as int, e as int));
                    lemma_arc_owner_unique(first_out@, tail@[e as int] as int, x as int, e as int);
                }
                let ghost maps2_before = sets(maps2@);
                let ghost origin_before = origin@;
                head2.push(head[e as usize]);
                tail2.push(x as u32);
                maps2.push(copy_ids(&maps[e as usize]));
                origin.push(e);
                proof {
                    assert forall|j: int| 0 <= j < origin@.len() - 1 implies sets(maps2@)[j] == maps2_before[j] by {}
                    assert(sets(maps2@)[origin@.len() - 1] == maps@[e as int]@);
                    assert(sets(maps@)[e as int] == maps@[e as int]@);
                    assert forall|f: int| 0 <= f < e + 1 && #[trigger] keep@[f] implies exists|j: int|
                        0 <= j < origin@.len() && origin@[j] == f by {
                        if f == e {
                            assert(origin@[origin@.len() - 1] == f);
                        } else {
                            let j = choose|j: int| 0 <= j < origin_before.len() && origin_before[j] == f;
                            assert(origin@[j] == f);
                        }
                    }
                }
            }
            e = e + 1;
        }
        let ghost fo2_before = fo2@;
        fo2.push(head2.len() as u32);
        proof {
            assert forall|i: int, j: int| 0 <= i <= j < fo2@.len() implies fo2@[i] <= fo2@[j] by {
                if j == x + 1 && i < j {
                    assert(fo2_before[i] <= fo2_before[x as int]);
                }
            }
            assert forall|j: int| 0 <= j < head2@.len() implies #[trigger] arc_of_node(fo2@, tail2@[j] as int, j) by {
                if j >= fo2@[x as int] {
                    assert(tail2@[j] == x);
                } else {
                    assert(arc_of_node(fo2_before, tail2@[j] as int, j));
                }
            }
        }
        x = x + 1;
    }
    proof {
        assert(forall|e: int| 0 <= e < head@.len() && #[trigger] keep@[e] ==> exists|j: int|
            0 <= j < origin@.len() && origin@[j] == e);
        assert(filtered_from(head@, tail@, sets(maps@), keep@, head2@, tail2@, sets(maps2@), origin@));
        lemma_origin_is_kept_arcs(head@, tail@, sets(maps@), keep@, head2@, tail2@, sets(maps2@), origin@);
        assert forall|xx: int, a: int|
            #![trigger fo2@[xx], head2@[a]]
            0 <= xx < fo2@.len() - 1 && fo2@[xx] <= a < fo2@[xx + 1] implies xx < head2@[a] < fo2@.len() - 1 by {
            assert(arc_of_node(fo2@, tail2@[a] as int, a));
            lemma_arc_owner_unique(fo2@, tail2@[a] as int, xx, a);
            let e = origin@[a] as int;
            assert(arc_of_node(first_out@, tail@[e] as int, e));
            lemma_upward_csr_facts(first_out@, head@, xx, e);
        }
        assert forall|xx: int, a: int, b: int|
            #![trigger fo2@[xx], head2@[a], head2@[b]]
            0 <= xx < fo2@.len() - 1 && fo2@[xx] <= a < b < fo2@[xx + 1] implies head2@[a] < head2@[b] by {
            assert(arc_of_node(fo2@, tail2@[a] as int, a));
            assert(arc_of_node(fo2@, tail2@[b] as int, b));
            lemma_arc_owner_unique(fo2@, tail2@[a] as int, xx, a);
            lemma_arc_owner_unique(fo2@, tail2@[b] as int, xx, b);
            let ea = origin@[a] as int;
            let eb = origin@[b] as int;
            assert(arc_of_node(first_out@, tail@[ea] as int, ea));
            assert(arc_of_node(first_out@, tail@[eb] as int, eb));
            lemma_upward_sorted(first_out@, head@, xx, ea, eb);
        }
        lemma_upward_csr_from_facts(fo2@, head2@);
    }
    (fo2, head2, tail2, maps2, origin)
}

/// Every arc head of an upward CSR graph is a node.
pub proof fn lemma_heads_below(first_out: Seq<u32>, head: Seq<u32>)
    requires
        upward_csr_wf(first_out, head),
    ensures
        forall|e: int| 0 <= e < head.len() ==> (#[trigger] head[e] as int) < first_out.len() - 1,
{
    assert forall|e: int| 0 <= e < head.len() implies (#[trigger] head[e] as int) < first_out.len() - 1 by {
        let t = lemma_arc_owner_exists(first_out, e);
        lemma_upward_csr_facts(first_out, head, t, e);
    }
}

/// Every arc of a CSR graph starting at arc id zero belongs to some node.
pub proof fn lemma_arc_owner_exists(first_out: Seq<u32>, e: int) -> (t: int)
    requires
        first_out.len() >= 1,
        first_out[0] == 0,
        offsets_monotone(first_out),
        0 <= e < first_out[first_out.len() - 1],
    ensures
        arc_of_node(first_out, t, e),
    decreases first_out.len(),
{
    let n = first_out.len() - 1;
    if e >= first_out[n - 1] {
        n - 1
    } else {
        let sub = first_out.subrange(0, n as int);
        assert(sub[n - 1] == first_out[n - 1]);
        assert(offsets_monotone(sub));
        let t = lemma_arc_owner_exists(sub, e);
        assert(sub[t] == first_out[t] && sub[t + 1] == first_out[t + 1]);
        t
    }
}

/// An arc lies in the range of only one node.
pub proof fn lemma_arc_owner_unique(first_out: Seq<u32>, u: int, v: int, e: int)
    requires
        offsets_monotone(first_out),
        arc_of_node(first_out, u, e),
        0 <= v < first_out.len() - 1,
        first_out[v] <= e < first_out[v + 1],
    ensures
        u == v,
{
    if u < v {
        assert(first_out[u + 1] <= first_out[v]);
    } else if u > v {
        assert(first_out[v + 1] <= first_out[u]);
    }
}


/// Arcs kept when pruning: those whose forward or backward weight is finite.
pub open spec fn keep_finite_either(forward_weights: Seq<u32>, backward_weights: Seq<u32>) -> Seq<bool> {
    Seq::new(forward_weights.len(), |e: int| forward_weights[e] < INFINITY || backward_weights[e] < INFINITY)
}

/// Arcs whose weight is finite.
pub open spec fn keep_finite(weights: Seq<u32>) -> Seq<bool> {
    Seq::new(weights.len(), |e: int| weights[e] < INFINITY)
}

pub(crate) fn finite_flags(forward_weights: &Vec<u32>, backward_weights: Option<&Vec<u32>>) -> (keep: Vec<bool>)
    requires
        backward_weights matches Some(bw) ==> bw@.len() == forward_weights@.len(),
    ensures
        keep@ == match backward_weights {
            Some(bw) => keep_finite_either(forward_weights@, bw@),
            None => keep_finite(forward_weights@),
        },
{
    let mut keep: Vec<bool> = Vec::new();
    let mut e: usize = 0;
    while e < forward_weights.len()
        invariant
            e <= forward_weights@.len(),
            backward_weights matches Some(bw) ==> bw@.len() == forward_weights@.len(),
            keep@.len() == e,
            forall|f: int| 0 <= f < e ==> #[trigger] keep@[f] == match backward_weights {
                Some(bw) => forward_weights@[f] < INFINITY || bw@[f] < INFINITY,
                None => forward_weights@[f] < INFINITY,
            },
        decreases forward_weights@.len() - e,
    {
        let k = match backward_weights {
            Some(bw) => forward_weights[e] < INFINITY || bw[e] < INFINITY,
            None => forward_weights[e] < INFINITY,
        };
        keep.push(k);
        e = e + 1;
    }
    proof {
        match backward_weights {
            Some(bw) => {
                assert(keep@ =~= keep_finite_either(forward_weights@, bw@));
            },
            None => {
                assert(keep@ =~= keep_finite(forward_weights@));
            },
        }
    }
    keep
}

/// `maps[origin[j]]` for every `j`, copied.
fn gather_lists(maps: &Vec<Vec<u32>>, origin: &Vec<u32>) -> (out: Vec<Vec<u32>>)
    requires
        forall|j: int| 0 <= j < origin@.len() ==> (#[trigger] origin@[j] as int) < maps@.len(),
    ensures
        out@.len() == origin@.len(),
        forall|j: int| 0 <= j < origin@.len() ==> #[trigger] sets(out@)[j] == sets(maps@)[origin@[j] as int],
{
    let mut out: Vec<Vec<u32>> = Vec::new();
    let mut i: usize = 0;
    while i < origin.len()
        invariant
            forall|j: int| 0 <= j < origin@.len() ==> (#[trigger] origin@[j] as int) < maps@.len(),
            i <= origin@.len(),
            out@.len() == i,
            forall|j: int| 0 <= j < i ==> #[trigger] sets(out@)[j] == sets(maps@)[origin@[j] as int],
        decreases origin@.len() - i,
    {
        let ghost before = sets(out@);
        out.push(copy_ids(&maps[origin[i] as usize]));
        proof {
            assert forall|j: int| 0 <= j < i + 1 implies #[trigger] sets(out@)[j] == sets(maps@)[origin@[j] as int] by {
                if j < i {
                    assert(sets(out@)[j] == before[j]);
                }
            }
        }
        i = i + 1;
    }
    out
}

/// A copy of an elimination tree.
pub fn copy_tree(tree: &Vec<Option<u32>>) -> (out: Vec<Option<u32>>)
    ensures
        out@ == tree@,
{
    let mut out: Vec<Option<u32>> = Vec::new();
    let mut i: usize = 0;
    while i < tree.len()
        invariant
            i <= tree@.len(),
            out@ == tree@.subrange(0, i as int),
        decreases tree@.len() - i,
    {
        let v = match tree[i] {
            Some(p) => Some(p),
            None => None,
        };
        out.push(v);
        i = i + 1;
    }
    out
}

impl CCH {
    /// Number of ranks.
    pub fn num_nodes(&self) -> (n: usize)
        requires
            self.wf(),
        ensures
            n == self.spec_first_out().len() - 1,
    {
        self.first_out.len() - 1
    }

    /// Number of arcs of the chordal supergraph.
    pub fn num_arcs(&self) -> (m: usize)
        ensures
            m == self.spec_head().len(),
    {
        self.head.len()
    }

    /// Number of upward neighbours of `node`.
    pub fn degree(&self, node: u32) -> (d: usize)
        requires
            self.wf(),
            (node as int) < self.spec_first_out().len() - 1,
        ensures
            d == self.spec_first_out()[node + 1] - self.spec_first_out()[node as int],
    {
        let n = self.first_out.len();
        let start = self.first_out[node as usize];
        let end = self.first_out[node as usize + 1];
        (end - start) as usize
    }

    /// The tail of arc `edge_id`.
    pub fn edge_id_to_tail(&self, edge_id: u32) -> (tail: u32)
        requires
            self.wf(),
            (edge_id as int) < self.spec_head().len(),
        ensures
            tail == self.spec_tail()[edge_id as int],
            arc_of_node(self.spec_first_out(), tail as int, edge_id as int),
    {
        self.tail[edge_id as usize]
    }

    /// CSR offsets of the chordal supergraph.
    pub fn first_out(&self) -> (r: &Vec<u32>)
        ensures
            r@ == self.spec_first_out(),
    {
        &self.first_out
    }

    /// Arc heads of the chordal supergraph.
    pub fn head(&self) -> (r: &Vec<u32>)
        ensures
            r@ == self.spec_head(),
    {
        &self.head
    }

    /// The arc id range of the upward neighbours of `node`.
    pub fn neighbor_edge_indices(&self, node: u32) -> (r: std::ops::Range<u32>)
        requires
            self.wf(),
            (node as int) < self.spec_first_out().len() - 1,
        ensures
            r.start == self.spec_first_out()[node as int],
            r.end == self.spec_first_out()[node + 1],
    {
        let n = self.first_out.len();
        std::ops::Range { start: self.first_out[node as usize], end: self.first_out[node as usize + 1] }
    }

    /// The arc id range of the upward neighbours of `node`, as `usize`.
    pub fn neighbor_edge_indices_usize(&self, node: u32) -> (r: std::ops::Range<usize>)
        requires
            self.wf(),
            (node as int) < self.spec_first_out().len() - 1,
        ensures
            r.start == self.spec_first_out()[node as int],
            r.end == self.spec_first_out()[node + 1],
    {
        let range = self.neighbor_edge_indices(node);
        std::ops::Range { start: range.start as usize, end: range.end as usize }
    }

    /// The upward neighbours of `node`, in increasing order.
    pub fn neighbor_iter(&self, node: u32) -> (neighbors: Vec<u32>)
        requires
            self.wf(),
            (node as int) < self.spec_first_out().len() - 1,
        ensures
            neighbors@ == upward(self.spec_first_out(), self.spec_head(), node as int),
    {
        let range = self.neighbor_edge_indices_usize(node);
        proof {
            assert(self.spec_first_out()[node + 1] <= self.spec_first_out()[self.spec_first_out().len() - 1]);
        }
        let mut out: Vec<u32> = Vec::new();
        let mut e = range.start;
        while e < range.end
            invariant
                range.start <= e <= range.end,
                range.end <= self.head@.len(),
                out@ == self.head@.subrange(range.start as int, e as int),
            decreases range.end - e,
        {
            out.push(self.head[e]);
            e = e + 1;
        }
        out
    }

    /// Arc tails of the chordal supergraph.
    pub fn tail(&self) -> (r: &Vec<u32>)
        ensures
            r@ == self.spec_tail(),
    {
        &self.tail
    }

    /// The reversed graph.
    pub fn inverted(&self) -> (r: &ReversedGraph)
        ensures
            *r == self.spec_inverted(),
    {
        &self.inverted
    }

    /// Drops the arcs that are infinite in both directions under the given
    /// weights (as the always-infinity customization yields them), keeping
    /// the order, the elimination tree and the arc maps of the kept arcs.
    pub fn remove_always_infinity(&self, forward_weights: &Vec<u32>, backward_weights: &Vec<u32>) -> (res: CCH)
        requires
            self.wf(),
            forward_weights@.len() == self.spec_head().len(),
            backward_weights@.len() == self.spec_head().len(),
        ensures
            res.wf(),
            res.spec_first_out().len() == self.spec_first_out().len(),
            res.spec_order().same_as(self.spec_order()),
            res.spec_elimination_tree() == self.spec_elimination_tree(),
            filtered_from(
                self.spec_head(),
                self.spec_tail(),
                self.spec_forward_orig(),
                keep_finite_either(forward_weights@, backward_weights@),
                res.spec_head(),
                res.spec_tail(),
                res.spec_forward_orig(),
                kept_arcs(keep_finite_either(forward_weights@, backward_weights@)),
            ),
            forall|j: int|
                0 <= j < res.spec_head().len() ==> #[trigger] res.spec_backward_orig()[j] == self.spec_backward_orig()[kept_arcs(
                    keep_finite_either(forward_weights@, backward_weights@),
                )[j] as int],
    {
        let keep = finite_flags(forward_weights, Some(backward_weights));
        let (first_out, head, tail, forward, origin) = filter_arcs(
            &self.first_out,
            &self.head,
            &self.tail,
            &self.forward_cch_edge_to_orig_arc,
            &keep,
        );
        proof {
            assert(forall|j: int| 0 <= j < origin@.len() ==> (#[trigger] origin@[j] as int) < self.head@.len());
        }
        let backward = gather_lists(&self.backward_cch_edge_to_orig_arc, &origin);
        let inverted = ReversedGraph::reversed(&first_out, &head, &tail);
        let res = CCH {
            first_out,
            head,
            tail,
            node_order: self.node_order.clone(),
            forward_cch_edge_to_orig_arc: forward,
            backward_cch_edge_to_orig_arc: backward,
            elimination_tree: copy_tree(&self.elimination_tree),
            inverted,
        };
        proof {
            assert(res.spec_order().nodes() == self.spec_order().nodes());
            assert(res.spec_order().rank_seq() == self.spec_order().rank_seq());
            assert(forall|j: int| 0 <= j < origin@.len() ==> #[trigger] res.spec_backward_orig()[j] == self.spec_backward_orig()[origin@[j] as int]);
        }
        res
    }
}


/// The metric independent data that customizations and queries read: an
/// upward and a downward CSR graph over the ranks, their tails, reversed
/// views and arc maps, the elimination tree and the node order.
pub trait CCHT {
    /// The invariant of the implementing type.
    spec fn cch_wf(&self) -> bool;

    spec fn spec_fw_first_out(&self) -> Seq<u32>;

    spec fn spec_bw_first_out(&self) -> Seq<u32>;

    spec fn spec_fw_head(&self) -> Seq<u32>;

    spec fn spec_bw_head(&self) -> Seq<u32>;

    spec fn spec_fw_tail(&self) -> Seq<u32>;

    spec fn spec_bw_tail(&self) -> Seq<u32>;

    spec fn spec_fw_inverted(&self) -> ReversedGraph;

    spec fn spec_bw_inverted(&self) -> ReversedGraph;

    spec fn spec_fw_orig(&self) -> Seq<Seq<u32>>;

    spec fn spec_bw_orig(&self) -> Seq<Seq<u32>>;

    spec fn spec_cch_tree(&self) -> Seq<Option<u32>>;

    spec fn spec_cch_order(&self) -> NodeOrder;

    /// Number of nodes (ranks).
    fn num_cch_nodes(&self) -> (n: usize)
        requires
            self.cch_wf(),
        ensures
            n == self.spec_fw_first_out().len() - 1,
    ;

    fn forward_first_out(&self) -> (r: &Vec<u32>)
        ensures
            r@ == self.spec_fw_first_out(),
    ;

    fn backward_first_out(&self) -> (r: &Vec<u32>)
        ensures
            r@ == self.spec_bw_first_out(),
    ;

    fn forward_head(&self) -> (r: &Vec<u32>)
        ensures
            r@ == self.spec_fw_head(),
    ;

    fn backward_head(&self) -> (r: &Vec<u32>)
        ensures
            r@ == self.spec_bw_head(),
    ;

    fn forward_tail(&self) -> (r: &Vec<u32>)
        ensures
            r@ == self.spec_fw_tail(),
    ;

    fn backward_tail(&self) -> (r: &Vec<u32>)
        ensures
            r@ == self.spec_bw_tail(),
    ;

    fn forward_inverted(&self) -> (r: &ReversedGraph)
        ensures
            *r == self.spec_fw_inverted(),
    ;

    fn backward_inverted(&self) -> (r: &ReversedGraph)
        ensures
            *r == self.spec_bw_inverted(),
    ;

    /// Input arcs behind every upward arc.
    fn forward_cch_edge_to_orig_arc(&self) -> (r: &Vec<Vec<u32>>)
        ensures
            sets(r@) == self.spec_fw_orig(),
    ;

    /// Input arcs behind every downward arc.
    fn backward_cch_edge_to_orig_arc(&self) -> (r: &Vec<Vec<u32>>)
        ensures
            sets(r@) == self.spec_bw_orig(),
    ;

    /// The elimination tree (parent of every rank, `None` for roots).
    fn elimination_tree(&self) -> (r: &Vec<Option<u32>>)
        ensures
            r@ == self.spec_cch_tree(),
    ;

    fn node_order(&self) -> (r: &NodeOrder)
        ensures
            *r == self.spec_cch_order(),
    ;
}

/// An undirected CCH serves both directions with the same arcs.
impl CCHT for CCH {
    open spec fn cch_wf(&self) -> bool {
        self.wf()
    }

    open spec fn spec_fw_first_out(&self) -> Seq<u32> {
        self.spec_first_out()
    }

    open spec fn spec_bw_first_out(&self) -> Seq<u32> {
        self.spec_first_out()
    }

    open spec fn spec_fw_head(&self) -> Seq<u32> {
        self.spec_head()
    }

    open spec fn spec_bw_head(&self) -> Seq<u32> {
        self.spec_head()
    }

    open spec fn spec_fw_tail(&self) -> Seq<u32> {
        self.spec_tail()
    }

    open spec fn spec_bw_tail(&self) -> Seq<u32> {
        self.spec_tail()
    }

    open spec fn spec_fw_inverted(&self) -> ReversedGraph {
        self.spec_inverted()
    }

    open spec fn spec_bw_inverted(&self) -> ReversedGraph {
        self.spec_inverted()
    }

    open spec fn spec_fw_orig(&self) -> Seq<Seq<u32>> {
        self.spec_forward_orig()
    }

    open spec fn spec_bw_orig(&self) -> Seq<Seq<u32>> {
        self.spec_backward_orig()
    }

    open spec fn spec_cch_tree(&self) -> Seq<Option<u32>> {
        self.spec_elimination_tree()
    }

    open spec fn spec_cch_order(&self) -> NodeOrder {
        self.spec_order()
    }

    fn num_cch_nodes(&self) -> (n: usize) {
        self.first_out.len() - 1
    }

    fn forward_first_out(&self) -> (r: &Vec<u32>) {
        &self.first_out
    }

    fn backward_first_out(&self) -> (r: &Vec<u32>) {
        &self.first_out
    }

    fn forward_head(&self) -> (r: &Vec<u32>) {
        &self.head
    }

    fn backward_head(&self) -> (r: &Vec<u32>) {
        &self.head
    }

    fn forward_tail(&self) -> (r: &Vec<u32>) {
        &self.tail
    }

    fn backward_tail(&self) -> (r: &Vec<u32>) {
        &self.tail
    }

    fn forward_inverted(&self) -> (r: &ReversedGraph) {
        &self.inverted
    }

    fn backward_inverted(&self) -> (r: &ReversedGraph) {
        &self.inverted
    }

    fn forward_cch_edge_to_orig_arc(&self) -> (r: &Vec<Vec<u32>>) {
        &self.forward_cch_edge_to_orig_arc
    }

    fn backward_cch_edge_to_orig_arc(&self) -> (r: &Vec<Vec<u32>>) {
        &self.backward_cch_edge_to_orig_arc
    }

    fn elimination_tree(&self) -> (r: &Vec<Option<u32>>) {
        &self.elimination_tree
    }

    fn node_order(&self) -> (r: &NodeOrder) {
        &self.node_order
    }
}

impl ReversedGraph {
    /// The offsets form a CSR array over all entries, every entry names an
    /// arc below `num_arcs`, and every incoming list is sorted by lower
    /// endpoint.
    pub open spec fn indexable(&self, num_arcs: int) -> bool {
        &&& csr_wf(self.spec_first_out(), self.spec_head().len() as int)
        &&& self.spec_edge_ids().len() == self.spec_head().len()
        &&& self.spec_head().len() == num_arcs
        &&& forall|i: int| 0 <= i < self.spec_edge_ids().len() ==> (#[trigger] self.spec_edge_ids()[i] as int) < num_arcs
        &&& sorted_groups(self.spec_first_out(), self.spec_head())
    }
}

/// Entries `i` (into `from` in the backward view) and `j` (into `to` in the
/// forward view) share their lower endpoint.
pub open spec fn common_lower(
    backward_inverted: ReversedGraph,
    forward_inverted: ReversedGraph,
    from: int,
    to: int,
    i: int,
    j: int,
) -> bool {
    &&& backward_inverted.spec_first_out()[from] <= i < backward_inverted.spec_first_out()[from + 1]
    &&& forward_inverted.spec_first_out()[to] <= j < forward_inverted.spec_first_out()[to + 1]
    &&& backward_inverted.spec_head()[i] == forward_inverted.spec_head()[j]
}

/// The lower triangle through entries `i` and `j` has total weight `weight`.
pub open spec fn lower_triangle(
    backward_inverted: ReversedGraph,
    forward_inverted: ReversedGraph,
    upward: Seq<u32>,
    downward: Seq<u32>,
    from: int,
    to: int,
    weight: int,
    i: int,
    j: int,
) -> bool {
    &&& common_lower(backward_inverted, forward_inverted, from, to, i, j)
    &&& downward[backward_inverted.spec_edge_ids()[i] as int] + upward[forward_inverted.spec_edge_ids()[j] as int] == weight
}

/// Unpacks the arc `from -> to` of weight `weight`: finds the lowest node
/// `m` below both with `downward(from, m) + upward(m, to) == weight` by a
/// coordinated sweep over the two sorted incoming lists, and returns `m` with
/// the two weights; `None` when no lower triangle has that weight.
pub fn unpack_arc(
    from: u32,
    to: u32,
    weight: u32,
    upward: &Vec<u32>,
    downward: &Vec<u32>,
    forward_inverted: &ReversedGraph,
    backward_inverted: &ReversedGraph,
) -> (res: Option<(u32, u32, u32)>)
    requires
        forward_inverted.indexable(upward@.len() as int),
        backward_inverted.indexable(downward@.len() as int),
        (from as int) < backward_inverted.spec_first_out().len() - 1,
        (to as int) < forward_inverted.spec_first_out().len() - 1,
    ensures
        match res {
            Some((m, d, u)) => exists|i: int, j: int|
                {
                    &&& lower_triangle(*backward_inverted, *forward_inverted, upward@, downward@, from as int, to as int, weight as int, i, j)
                    &&& backward_inverted.spec_head()[i] == m
                    &&& d == downward@[backward_inverted.spec_edge_ids()[i] as int]
                    &&& u == upward@[forward_inverted.spec_edge_ids()[j] as int]
                    &&& forall|i2: int, j2: int|
                        #[trigger] lower_triangle(*backward_inverted, *forward_inverted, upward@, downward@, from as int, to as int, weight as int, i2, j2)
                            ==> m <= backward_inverted.spec_head()[i2]
                },
            None => forall|i: int, j: int|
                !#[trigger] lower_triangle(*backward_inverted, *forward_inverted, upward@, downward@, from as int, to as int, weight as int, i, j),
        },
{
    let bfo = backward_inverted.first_out();
    let bhead = backward_inverted.head_slice();
    let beid = backward_inverted.edge_ids();
    let ffo = forward_inverted.first_out();
    let fhead = forward_inverted.head_slice();
    let feid = forward_inverted.edge_ids();
    let bn = bfo.len();
    let fn_ = ffo.len();
    let iend = bfo[from as usize + 1];
    let jend = ffo[to as usize + 1];
    let mut i = bfo[from as usize];
    let mut j = ffo[to as usize];
    proof {
        assert(bfo@[from + 1] <= bfo@[bn - 1]);
        assert(ffo@[to + 1] <= ffo@[fn_ - 1]);
        assert(bfo@[from as int] <= bfo@[from + 1]);
        assert(ffo@[to as int] <= ffo@[to + 1]);
    }
    let ghost bw = *backward_inverted;
    let ghost fw = *forward_inverted;
    while i < iend && j < jend
        invariant
            bw == *backward_inverted,
            fw == *forward_inverted,
            bfo@ == bw.spec_first_out(),
            bhead@ == bw.spec_head(),
            beid@ == bw.spec_edge_ids(),
            ffo@ == fw.spec_first_out(),
            fhead@ == fw.spec_head(),
            feid@ == fw.spec_edge_ids(),
            fw.indexable(upward@.len() as int),
            bw.indexable(downward@.len() as int),
            (from as int) < bfo@.len() - 1,
            (to as int) < ffo@.len() - 1,
            iend == bfo@[from + 1],
            jend == ffo@[to + 1],
            iend <= bhead@.len(),
            jend <= fhead@.len(),
            bfo@[from as int] <= i <= iend,
            ffo@[to as int] <= j <= jend,
            forall|i2: int, j2: int|
                #[trigger] lower_triangle(bw, fw, upward@, downward@, from as int, to as int, weight as int, i2, j2) ==> i2 >= i && j2 >= j,
        decreases (iend - i) + (jend - j),
    {
        let a = bhead[i as usize];
        let b = fhead[j as usize];
        if a < b {
            proof {
                assert forall|i2: int, j2: int|
                    #[trigger] lower_triangle(bw, fw, upward@, downward@, from as int, to as int, weight as int, i2, j2)
                        implies i2 >= i + 1 && j2 >= j by {
                    if i2 == i && j2 >= j {
                        if j2 > j {
                            assert(fhead@[j as int] < fhead@[j2]);
                        }
                    }
                }
            }
            i = i + 1;
        } else if a > b {
            proof {
                assert forall|i2: int, j2: int|
                    #[trigger] lower_triangle(bw, fw, upward@, downward@, from as int, to as int, weight as int, i2, j2)
                        implies i2 >= i && j2 >= j + 1 by {
                    if j2 == j && i2 >= i {
                        if i2 > i {
                            assert(bhead@[i as int] < bhead@[i2]);
                        }
                    }
                }
            }
            j = j + 1;
        } else {
            let d = downward[beid[i as usize] as usize];
            let u = upward[feid[j as usize] as usize];
            if d as u64 + u as u64 == weight as u64 {
                proof {
                    assert(lower_triangle(bw, fw, upward@, downward@, from as int, to as int, weight as int, i as int, j as int));
                    assert forall|i2: int, j2: int|
                        #[trigger] lower_triangle(bw, fw, upward@, downward@, from as int, to as int, weight as int, i2, j2)
                            implies a <= bhead@[i2] by {
                        if i2 < i || j2 < j {
                        } else if i2 > i {
                            assert(bhead@[i as int] < bhead@[i2]);
                        }
                    }
                }
                return Some((a, d, u));
            }
            proof {
                assert forall|i2: int, j2: int|
                    #[trigger] lower_triangle(bw, fw, upward@, downward@, from as int, to as int, weight as int, i2, j2)
                        implies i2 >= i + 1 && j2 >= j + 1 by {
                    if i2 < i || j2 < j {
                    } else if i2 == i && j2 == j {
                    } else if i2 == i {
                        assert(fhead@[j as int] < fhead@[j2]);
                    } else {
                        assert(bhead@[i as int] < bhead@[i2]);
                    }
                }
            }
            i = i + 1;
            j = j + 1;
        }
    }
    proof {
        assert forall|i2: int, j2: int|
            !#[trigger] lower_triangle(*backward_inverted, *forward_inverted, upward@, downward@, from as int, to as int, weight as int, i2, j2) by {
            if lower_triangle(bw, fw, upward@, downward@, from as int, to as int, weight as int, i2, j2) {
                assert(i2 >= i && j2 >= j);
            }
        }
    }
    None
}


/// Two upward CSR graphs with the same upward lists agree at offset `x`.
proof fn lemma_offsets_agree(fo1: Seq<u32>, h1: Seq<u32>, fo2: Seq<u32>, h2: Seq<u32>, x: int)
    requires
        upward_csr_wf(fo1, h1),
        upward_csr_wf(fo2, h2),
        upward_lists(fo1, h1) == upward_lists(fo2, h2),
        fo1.len() == fo2.len(),
        0 <= x < fo1.len(),
    ensures
        fo1[x] == fo2[x],
    decreases x,
{
    if x > 0 {
        lemma_offsets_agree(fo1, h1, fo2, h2, x - 1);
        let last = fo1.len() - 1;
        assert(fo1[x - 1] <= fo1[x] <= fo1[last]);
        assert(fo2[x - 1] <= fo2[x] <= fo2[last]);
        assert(upward_lists(fo1, h1)[x - 1] == upward(fo1, h1, x - 1));
        assert(upward_lists(fo2, h2)[x - 1] == upward(fo2, h2, x - 1));
        assert(upward(fo1, h1, x - 1).len() == upward(fo2, h2, x - 1).len());
    }
}

/// An upward CSR graph is determined by its upward lists.
pub proof fn lemma_upward_csr_determined(fo1: Seq<u32>, h1: Seq<u32>, fo2: Seq<u32>, h2: Seq<u32>)
    requires
        upward_csr_wf(fo1, h1),
        upward_csr_wf(fo2, h2),
        upward_lists(fo1, h1) == upward_lists(fo2, h2),
    ensures
        fo1 == fo2,
        h1 == h2,
{
    assert(upward_lists(fo1, h1).len() == fo1.len() - 1);
    assert(upward_lists(fo2, h2).len() == fo2.len() - 1);
    assert(fo1.len() == fo2.len());
    assert forall|x: int| 0 <= x < fo1.len() implies fo1[x] == fo2[x] by {
        lemma_offsets_agree(fo1, h1, fo2, h2, x);
    }
    assert(fo1 =~= fo2);
    assert forall|e: int| 0 <= e < h1.len() implies h1[e] == h2[e] by {
        let x = lemma_arc_owner_exists(fo1, e);
        assert(upward_lists(fo1, h1)[x] == upward(fo1, h1, x));
        assert(upward_lists(fo2, h2)[x] == upward(fo2, h2, x));
        assert(fo1[x + 1] <= fo1[fo1.len() - 1]);
        assert(upward(fo1, h1, x)[e - fo1[x]] == h1[e]);
        assert(upward(fo2, h2, x)[e - fo2[x]] == h2[e]);
    }
    assert(h1 =~= h2);
}

/// Two arc sets between the same pair of nodes are the same list.
proof fn lemma_arc_set_unique(first_out: Seq<u32>, head: Seq<u32>, u: int, v: int, a: Seq<u32>, b: Seq<u32>)
    requires
        is_arc_set(first_out, head, u, v, a),
        is_arc_set(first_out, head, u, v, b),
    ensures
        a == b,
{
    assert forall|y: u32| a.contains(y) <==> b.contains(y) by {
        if a.contains(y) {
            let k = choose|k: int| 0 <= k < a.len() && a[k] == y;
            assert(arc_of_node(first_out, u, a[k] as int));
        }
        if b.contains(y) {
            let k = choose|k: int| 0 <= k < b.len() && b[k] == y;
            assert(arc_of_node(first_out, u, b[k] as int));
        }
    }
    lemma_sorted_unique(a, b);
}

/// The input graph and the node order determine the CCH: two CCHs built
/// over the same graph along the same order, each with the elimination graph
/// of that order as its chordal supergraph and with the elimination tree read
/// from it, have the same offsets, heads, tails, input arcs behind every arc
/// in both directions, and elimination tree. So the CCH built for a fixed
/// order is the one that contraction along that order gives.
pub proof fn lemma_cch_determined(c1: CCH, c2: CCH, first_out: Seq<u32>, head: Seq<u32>)
    requires
        c1.wf(),
        c2.wf(),
        c1.built_over(first_out, head),
        c2.built_over(first_out, head),
        c1.spec_order() == c2.spec_order(),
        is_elimination_graph(first_out, head, c1.spec_order().rank_seq(), c1.spec_upward_lists()),
        is_elimination_graph(first_out, head, c2.spec_order().rank_seq(), c2.spec_upward_lists()),
        elimination_tree_of(c1.spec_first_out(), c1.spec_head(), c1.spec_elimination_tree()),
        elimination_tree_of(c2.spec_first_out(), c2.spec_head(), c2.spec_elimination_tree()),
    ensures
        c1.spec_first_out() == c2.spec_first_out(),
        c1.spec_head() == c2.spec_head(),
        c1.spec_tail() == c2.spec_tail(),
        c1.spec_forward_orig() == c2.spec_forward_orig(),
        c1.spec_backward_orig() == c2.spec_backward_orig(),
        c1.spec_elimination_tree() == c2.spec_elimination_tree(),
{
    let ranks = c1.spec_order().rank_seq();
    lemma_elimination_graph_unique(first_out, head, ranks, c1.spec_upward_lists(), c2.spec_upward_lists());
    let fo = c1.spec_first_out();
    let h = c1.spec_head();
    lemma_upward_csr_determined(fo, h, c2.spec_first_out(), c2.spec_head());
    let t1 = c1.spec_tail();
    let t2 = c2.spec_tail();
    assert forall|e: int| 0 <= e < t1.len() implies t1[e] == t2[e] by {
        assert(arc_of_node(fo, t1[e] as int, e));
        assert(arc_of_node(fo, t2[e] as int, e));
        lemma_arc_owner_unique(fo, t1[e] as int, t2[e] as int, e);
    }
    assert(t1 =~= t2);
    let nodes = c1.spec_order().nodes();
    assert forall|e: int| 0 <= e < h.len() implies c1.spec_forward_orig()[e] == c2.spec_forward_orig()[e]
        && c1.spec_backward_orig()[e] == c2.spec_backward_orig()[e] by {
        let u = nodes[t1[e] as int] as int;
        let v = nodes[h[e] as int] as int;
        lemma_arc_set_unique(first_out, head, u, v, c1.spec_forward_orig()[e], c2.spec_forward_orig()[e]);
        lemma_arc_set_unique(first_out, head, v, u, c1.spec_backward_orig()[e], c2.spec_backward_orig()[e]);
    }
    assert(c1.spec_forward_orig() =~= c2.spec_forward_orig());
    assert(c1.spec_backward_orig() =~= c2.spec_backward_orig());
    assert(c1.spec_elimination_tree() =~= c2.spec_elimination_tree());
}

} // verus!
