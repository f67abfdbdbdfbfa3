//! Node orders: a bijection between node ids and contraction ranks.

use vstd::prelude::*;
use vstd::set_lib::{lemma_int_range, lemma_subset_equality, set_int_range};

verus! {

/// Every entry is below the sequence length and no entry occurs twice.
pub open spec fn is_permutation(s: Seq<u32>) -> bool {
    &&& forall|i: int| 0 <= i < s.len() ==> (#[trigger] s[i] as int) < s.len()
    &&& forall|i: int, j: int| 0 <= i < j < s.len() ==> s[i] != s[j]
}

/// `inv` undoes `p` in both directions.
pub open spec fn are_inverse(p: Seq<u32>, inv: Seq<u32>) -> bool {
    &&& p.len() == inv.len()
    &&& forall|r: int| 0 <= r < p.len() ==> (#[trigger] p[r] as int) < p.len() && inv[p[r] as int] == r
    &&& forall|v: int| 0 <= v < inv.len() ==> (#[trigger] inv[v] as int) < inv.len() && p[inv[v] as int] == v
}

/// A permutation of `0..n` hits every value of `0..n`.
pub proof fn lemma_permutation_onto(s: Seq<u32>, v: int)
    requires
        is_permutation(s),
        0 <= v < s.len(),
    ensures
        exists|i: int| 0 <= i < s.len() && s[i] == v,
{
    let t = s.map_values(|x: u32| x as int);
    assert forall|i: int, j: int| 0 <= i < t.len() && 0 <= j < t.len() && i != j implies t[i] != t[j] by {
        if i < j {
        } else {
        }
    }
    assert(t.no_duplicates());
    t.unique_seq_to_set();
    lemma_int_range(0, s.len() as int);
    assert(t.to_set().subset_of(set_int_range(0, s.len() as int))) by {
        assert forall|x: int| t.to_set().contains(x) implies set_int_range(0, s.len() as int).contains(x) by {
            let i = choose|i: int| 0 <= i < t.len() && t[i] == x;
            assert(s[i] as int == x);
        }
    }
    lemma_subset_equality(t.to_set(), set_int_range(0, s.len() as int));
    assert(set_int_range(0, s.len() as int).contains(v));
    assert(t.to_set().contains(v));
    let i = choose|i: int| 0 <= i < t.len() && t[i] == v;
    assert(s[i] == v);
}

/// Builds the inverse of a permutation.
fn invert_permutation(p: &Vec<u32>) -> (inv: Vec<u32>)
    requires
        is_permutation(p@),
        p@.len() <= u32::MAX,
    ensures
        are_inverse(p@, inv@),
{
    let n = p.len();
    let mut inv: Vec<u32> = Vec::new();
    let mut k: usize = 0;
    while k < n
        invariant
            n == p@.len(),
            k <= n,
            inv@.len() == k,
            forall|i: int| 0 <= i < k ==> inv@[i] == 0,
        decreases n - k,
    {
        inv.push(0);
        k = k + 1;
    }
    let mut r: usize = 0;
    while r < n
        invariant
            n == p@.len(),
            n <= u32::MAX,
            is_permutation(p@),
            r <= n,
            inv@.len() == n,
            forall|q: int| 0 <= q < r ==> #[trigger] inv@[p@[q] as int] == q,
        decreases n - r,
    {
        let v = p[r] as usize;
        inv.set(v, r as u32);
        proof {
            assert forall|q: int| 0 <= q < r + 1 implies #[trigger] inv@[p@[q] as int] == q by {
                if q < r {
                    assert(p@[q] != p@[r as int]);
                }
            }
        }
        r = r + 1;
    }
    proof {
        assert forall|v: int| 0 <= v < inv@.len() implies (#[trigger] inv@[v] as int) < inv@.len() && p@[inv@[v] as int] == v by {
            lemma_permutation_onto(p@, v);
            let q = choose|q: int| 0 <= q < p@.len() && p@[q] == v;
            assert(inv@[p@[q] as int] == q);
        }
    }
    inv
}

/// A bijection between node ids and ranks. `node(rank)` is the node that is
/// contracted at position `rank`; `rank(node)` is its inverse.
pub struct NodeOrder {
    node_order: Vec<u32>,
    ranks: Vec<u32>,
}

impl NodeOrder {
    /// The nodes listed by increasing rank.
    pub closed spec fn nodes(&self) -> Seq<u32> {
        self.node_order@
    }

    /// The rank of every node, indexed by node id.
    pub closed spec fn rank_seq(&self) -> Seq<u32> {
        self.ranks@
    }

    /// Well-formed: the two arrays are mutually inverse permutations whose
    /// length fits a node id.
    pub open spec fn wf(&self) -> bool {
        &&& are_inverse(self.nodes(), self.rank_seq())
        &&& self.nodes().len() <= u32::MAX
    }

    /// Both orders map every rank to the same node and back.
    pub open spec fn same_as(&self, other: NodeOrder) -> bool {
        &&& self.nodes() == other.nodes()
        &&& self.rank_seq() == other.rank_seq()
    }

    /// Number of nodes ordered.
    pub open spec fn spec_len(&self) -> nat {
        self.nodes().len()
    }

    /// Builds an order from the list of nodes by increasing rank
    /// (`perm[rank] = node`).
    pub fn from_node_order(perm: Vec<u32>) -> (order: NodeOrder)
        requires
            is_permutation(perm@),
            perm@.len() <= u32::MAX,
        ensures
            order.wf(),
            order.nodes() == perm@,
    {
        let ranks = invert_permutation(&perm);
        NodeOrder { node_order: perm, ranks }
    }

    /// Builds an order from the rank of every node (`ranks[node] = rank`).
    pub fn from_ranks(ranks: Vec<u32>) -> (order: NodeOrder)
        requires
            is_permutation(ranks@),
            ranks@.len() <= u32::MAX,
        ensures
            order.wf(),
            order.rank_seq() == ranks@,
    {
        let node_order = invert_permutation(&ranks);
        NodeOrder { node_order, ranks }
    }

    /// Number of ordered nodes.
    pub fn len(&self) -> (n: usize)
        ensures
            n == self.spec_len(),
    {
        self.node_order.len()
    }

    /// The node at position `rank`.
    pub fn node(&self, rank: u32) -> (node: u32)
        requires
            self.wf(),
            rank < self.spec_len(),
        ensures
            node == self.nodes()[rank as int],
            node < self.spec_len(),
    {
        self.node_order[rank as usize]
    }

    /// The position of `node`.
    pub fn rank(&self, node: u32) -> (rank: u32)
        requires
            self.wf(),
            node < self.spec_len(),
        ensures
            rank == self.rank_seq()[node as int],
            rank < self.spec_len(),
    {
        self.ranks[node as usize]
    }

    /// The ranks of all nodes, indexed by node id.
    pub fn ranks(&self) -> (ranks: &Vec<u32>)
        ensures
            ranks@ == self.rank_seq(),
    {
        &self.ranks
    }

    /// The nodes by increasing rank.
    pub fn order(&self) -> (nodes: &Vec<u32>)
        ensures
            nodes@ == self.nodes(),
    {
        &self.node_order
    }
}

impl Clone for NodeOrder {
    fn clone(&self) -> (res: Self)
        ensures
            res.nodes() == self.nodes(),
            res.rank_seq() == self.rank_seq(),
    {
        NodeOrder { node_order: self.node_order.clone(), ranks: self.ranks.clone() }
    }
}

/// Looking up the rank of a node and then the node at that rank gives the
/// node back, and the other way round.
pub proof fn lemma_node_rank_roundtrip(order: &NodeOrder, v: u32, r: u32)
    requires
        order.wf(),
        v < order.spec_len(),
        r < order.spec_len(),
    ensures
        order.nodes()[order.rank_seq()[v as int] as int] == v,
        order.rank_seq()[order.nodes()[r as int] as int] == r,
{
}

/// The ranks determine the order: two well-formed orders with the same
/// ranks list the same nodes.
pub proof fn lemma_ranks_determine_order(a: &NodeOrder, b: &NodeOrder)
    requires
        a.wf(),
        b.wf(),
        a.rank_seq() == b.rank_seq(),
    ensures
        a.same_as(*b),
{
    assert forall|i: int| 0 <= i < a.nodes().len() implies a.nodes()[i] == b.nodes()[i] by {
        let v = a.nodes()[i];
        assert(a.rank_seq()[v as int] == i);
        assert(b.nodes()[b.rank_seq()[v as int] as int] == v);
    }
    assert(a.nodes() =~= b.nodes());
}

} // verus!
