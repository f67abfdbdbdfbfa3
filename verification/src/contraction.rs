//! Metric-independent contraction: the elimination game that turns an input
//! graph and a node order into the chordal supergraph of a CCH.
//!
//! All node ids here are ranks. The result lists, for every rank `x`, the
//! strictly increasing set of higher-ranked neighbours of `x` in the chordal
//! supergraph ("upward neighbours").

use vstd::prelude::*;
use crate::graph::{arc_of_node, csr_wf, lemma_sorted_unique, offsets_monotone, strictly_sorted};
use crate::node_order::NodeOrder;

verus! {

/// Every entry of `s` lies strictly between `lo` and `hi`.
pub open spec fn all_between(s: Seq<u32>, lo: int, hi: int) -> bool {
    forall|k: int| 0 <= k < s.len() ==> lo < #[trigger] s[k] < hi
}

/// The views of a vector of vectors.
pub open spec fn sets(up: Seq<Vec<u32>>) -> Seq<Seq<u32>> {
    up.map_values(|v: Vec<u32>| v@)
}

/// Arc `e` leaves node `u` and joins the ranks `x` and `y` (in either
/// direction).
pub open spec fn arc_joins(
    first_out: Seq<u32>,
    head: Seq<u32>,
    ranks: Seq<u32>,
    u: int,
    e: int,
    x: int,
    y: int,
) -> bool {
    &&& arc_of_node(first_out, u, e)
    &&& 0 <= e < head.len()
    &&& ((ranks[u] == x && ranks[head[e] as int] == y) || (ranks[u] == y && ranks[head[e] as int] == x))
}

/// Ranks `x` and `y` are adjacent in the undirected view of the input graph.
pub open spec fn linked(first_out: Seq<u32>, head: Seq<u32>, ranks: Seq<u32>, x: int, y: int) -> bool {
    exists|u: int, e: int| #[trigger] arc_joins(first_out, head, ranks, u, e, x, y)
}

/// Every upward list is strictly increasing and holds only ranks above its
/// owner.
pub open spec fn up_wf(up: Seq<Seq<u32>>) -> bool {
    forall|x: int|
        0 <= x < up.len() ==> strictly_sorted(#[trigger] up[x]) && all_between(up[x], x, up.len() as int)
}

/// Every input edge `{x, y}` with `x < y` is kept as the upward arc `x -> y`.
pub open spec fn supergraph(first_out: Seq<u32>, head: Seq<u32>, ranks: Seq<u32>, up: Seq<Seq<u32>>) -> bool {
    forall|x: int, y: int|
        0 <= x < y < up.len() && #[trigger] linked(first_out, head, ranks, x, y) ==> up[x].contains(
            y as u32,
        )
}

/// The upward neighbours of every node form a clique: eliminating a node
/// connects all its higher neighbours.
pub open spec fn clique(up: Seq<Seq<u32>>) -> bool {
    forall|c: int, y: u32, z: u32|
        0 <= c < up.len() && #[trigger] up[c].contains(y) && #[trigger] up[c].contains(z) && y < z
            ==> up[y as int].contains(z)
}

/// Every upward arc is an input edge or fill created by eliminating a lower
/// node that had both endpoints as upward neighbours.
pub open spec fn justified(first_out: Seq<u32>, head: Seq<u32>, ranks: Seq<u32>, up: Seq<Seq<u32>>) -> bool {
    forall|x: int, y: u32|
        0 <= x < up.len() && #[trigger] up[x].contains(y) ==> linked(first_out, head, ranks, x, y as int)
            || exists|c: int| 0 <= c < x && #[trigger] up[c].contains(x as u32) && up[c].contains(y)
}

/// The upward lists are exactly those of the elimination game on the input
/// graph: the least chordal supergraph for which the order is a perfect
/// elimination order.
pub open spec fn is_elimination_graph(
    first_out: Seq<u32>,
    head: Seq<u32>,
    ranks: Seq<u32>,
    up: Seq<Seq<u32>>,
) -> bool {
    &&& up.len() == ranks.len()
    &&& up_wf(up)
    &&& supergraph(first_out, head, ranks, up)
    &&& clique(up)
    &&& justified(first_out, head, ranks, up)
}

proof fn lemma_elimination_one_way(first_out: Seq<u32>, head: Seq<u32>, ranks: Seq<u32>, up1: Seq<Seq<u32>>, up2: Seq<Seq<u32>>, x: int, y: u32)
    requires
        is_elimination_graph(first_out, head, ranks, up1),
        is_elimination_graph(first_out, head, ranks, up2),
        0 <= x < up1.len(),
        up1[x].contains(y),
    ensures
        up2[x].contains(y),
    decreases x, 0int,
{
    let k = choose|k: int| 0 <= k < up1[x].len() && up1[x][k] == y;
    assert(up_wf(up1) && strictly_sorted(up1[x]) && all_between(up1[x], x, up1.len() as int));
    assert(x < up1[x][k] < up1.len());
    if linked(first_out, head, ranks, x, y as int) {
    } else {
        let c = choose|c: int| 0 <= c < x && #[trigger] up1[c].contains(x as u32) && up1[c].contains(y);
        lemma_elimination_same_at(first_out, head, ranks, up1, up2, c);
        assert(up2[c].contains(x as u32));
        assert(up2[c].contains(y));
    }
}

/// The upward lists of two elimination graphs of the same graph and order
/// agree at `x`.
proof fn lemma_elimination_same_at(first_out: Seq<u32>, head: Seq<u32>, ranks: Seq<u32>, up1: Seq<Seq<u32>>, up2: Seq<Seq<u32>>, x: int)
    requires
        is_elimination_graph(first_out, head, ranks, up1),
        is_elimination_graph(first_out, head, ranks, up2),
        0 <= x < up1.len(),
    ensures
        forall|y: u32| up1[x].contains(y) <==> up2[x].contains(y),
    decreases x, 1int,
{
    assert forall|y: u32| up1[x].contains(y) <==> up2[x].contains(y) by {
        if up1[x].contains(y) {
            lemma_elimination_one_way(first_out, head, ranks, up1, up2, x, y);
        }
        if up2[x].contains(y) {
            lemma_elimination_one_way(first_out, head, ranks, up2, up1, x, y);
        }
    }
}

/// The elimination game has one outcome: a graph and an order determine
/// the upward lists of their elimination graph.
pub proof fn lemma_elimination_graph_unique(first_out: Seq<u32>, head: Seq<u32>, ranks: Seq<u32>, up1: Seq<Seq<u32>>, up2: Seq<Seq<u32>>)
    requires
        is_elimination_graph(first_out, head, ranks, up1),
        is_elimination_graph(first_out, head, ranks, up2),
    ensures
        up1 == up2,
{
    assert forall|x: int| 0 <= x < up1.len() implies up1[x] == up2[x] by {
        lemma_elimination_same_at(first_out, head, ranks, up1, up2, x);
        assert(strictly_sorted(up1[x]));
        assert(strictly_sorted(up2[x]));
        lemma_sorted_unique(up1[x], up2[x]);
    }
    assert(up1 =~= up2);
}

/// The upward lists of the elimination graph of a graph under an order.
pub open spec fn elimination_lists(first_out: Seq<u32>, head: Seq<u32>, ranks: Seq<u32>) -> Seq<Seq<u32>> {
    choose|up: Seq<Seq<u32>>| is_elimination_graph(first_out, head, ranks, up)
}

/// Every elimination graph has the upward lists `elimination_lists` names.
pub proof fn lemma_elimination_lists(first_out: Seq<u32>, head: Seq<u32>, ranks: Seq<u32>, up: Seq<Seq<u32>>)
    requires
        is_elimination_graph(first_out, head, ranks, up),
    ensures
        elimination_lists(first_out, head, ranks) == up,
{
    lemma_elimination_graph_unique(first_out, head, ranks, up, elimination_lists(first_out, head, ranks));
}

/// Inserts `x` into a strictly sorted vector, keeping it strictly sorted.
pub fn insert_sorted(v: &mut Vec<u32>, x: u32)
    requires
        strictly_sorted(old(v)@),
    ensures
        strictly_sorted(final(v)@),
        final(v)@.contains(x),
        forall|y: u32| final(v)@.contains(y) <==> (old(v)@.contains(y) || y == x),
{
    let mut i: usize = 0;
    while i < v.len() && v[i] < x
        invariant
            i <= v@.len(),
            v@ == old(v)@,
            strictly_sorted(v@),
            forall|k: int| 0 <= k < i ==> v@[k] < x,
        decreases v@.len() - i,
    {
        i = i + 1;
    }
    if i < v.len() && v[i] == x {
        assert(v@[i as int] == x);
        return;
    }
    let ghost before = v@;
    v.insert(i, x);
    proof {
        assert(v@ == before.insert(i as int, x));
        assert forall|a: int, b: int| 0 <= a < b < v@.len() implies v@[a] < v@[b] by {
            if b < i {
            } else if b == i {
            } else if a < i {
                assert(before[b - 1] >= x) by {
                    if i < before.len() {
                        assert(before[i as int] > x);
                        if b - 1 > i {
                            assert(before[i as int] < before[b - 1]);
                        }
                    }
                }
            } else if a == i {
                assert(before[i as int] > x);
                if b - 1 > i {
                    assert(before[i as int] < before[b - 1]);
                }
            } else {
            }
        }
        assert(v@[i as int] == x);
        assert forall|y: u32| v@.contains(y) <==> (before.contains(y) || y == x) by {
            if v@.contains(y) {
                let k = choose|k: int| 0 <= k < v@.len() && v@[k] == y;
                if k < i {
                    assert(before[k] == y);
                } else if k > i {
                    assert(before[k - 1] == y);
                }
            }
            if before.contains(y) {
                let k = choose|k: int| 0 <= k < before.len() && before[k] == y;
                if k < i {
                    assert(v@[k] == y);
                } else {
                    assert(v@[k + 1] == y);
                }
            }
        }
    }
}


/// The arc `e` of node `u` is present in the upward lists (arcs whose ends
/// have the same rank are self-loops and are dropped).
pub open spec fn arc_recorded(
    first_out: Seq<u32>,
    head: Seq<u32>,
    ranks: Seq<u32>,
    up: Seq<Seq<u32>>,
    u: int,
    e: int,
) -> bool {
    let a = ranks[u] as int;
    let b = ranks[head[e] as int] as int;
    &&& a < b ==> up[a].contains(b as u32)
    &&& b < a ==> up[b].contains(a as u32)
}

/// Every list in `new` contains every element of the same list in `old`.
pub open spec fn grows(old: Seq<Seq<u32>>, new: Seq<Seq<u32>>) -> bool {
    &&& old.len() == new.len()
    &&& forall|i: int, y: u32| 0 <= i < old.len() && #[trigger] old[i].contains(y) ==> new[i].contains(y)
}

/// Requirements on the input of the contraction: a well-formed CSR graph whose
/// node count matches the order and whose heads are nodes.
pub open spec fn contraction_input(first_out: Seq<u32>, head: Seq<u32>, order: NodeOrder) -> bool {
    &&& csr_wf(first_out, head.len() as int)
    &&& order.wf()
    &&& first_out.len() - 1 == order.spec_len()
    &&& forall|e: int| 0 <= e < head.len() ==> (#[trigger] head[e] as int) < order.spec_len()
}

fn empty_lists(n: usize) -> (up: Vec<Vec<u32>>)
    ensures
        up@.len() == n,
        forall|x: int| 0 <= x < n ==> (#[trigger] up@[x])@.len() == 0,
{
    let mut up: Vec<Vec<u32>> = Vec::new();
    let mut i: usize = 0;
    while i < n
        invariant
            i <= n,
            up@.len() == i,
            forall|x: int| 0 <= x < i ==> (#[trigger] up@[x])@.len() == 0,
        decreases n - i,
    {
        up.push(Vec::new());
        i = i + 1;
    }
    up
}

/// Upward lists of the undirected input graph in rank space, before any fill.
fn initial_upward(first_out: &Vec<u32>, head: &Vec<u32>, order: &NodeOrder) -> (up: Vec<Vec<u32>>)
    requires
        contraction_input(first_out@, head@, *order),
    ensures
        sets(up@).len() == order.spec_len(),
        up_wf(sets(up@)),
        supergraph(first_out@, head@, order.rank_seq(), sets(up@)),
        forall|x: int, y: u32|
            0 <= x < up@.len() && #[trigger] sets(up@)[x].contains(y) ==> linked(
                first_out@,
                head@,
                order.rank_seq(),
                x,
                y as int,
            ),
{
    let n = first_out.len() - 1;
    let ghost ranks = order.rank_seq();
    let mut up = empty_lists(n);
    proof {
        assert forall|x: int| 0 <= x < n implies strictly_sorted(#[trigger] sets(up@)[x]) && all_between(sets(up@)[x], x, n as int) by {
            assert(sets(up@)[x] == up@[x]@);
        }
        assert forall|x: int, y: u32| 0 <= x < n && #[trigger] sets(up@)[x].contains(y) implies false by {
            assert(sets(up@)[x] == up@[x]@);
        }
    }
    let mut u: usize = 0;
    while u < n
        invariant
            contraction_input(first_out@, head@, *order),
            n == first_out@.len() - 1,
            ranks == order.rank_seq(),
            u <= n,
            up@.len() == n,
            up_wf(sets(up@)),
            forall|x: int, y: u32|
                0 <= x < n && #[trigger] sets(up@)[x].contains(y) ==> linked(first_out@, head@, ranks, x, y as int),
            forall|w: int, e: int|
                0 <= w < u && #[trigger] arc_of_node(first_out@, w, e) ==> arc_recorded(
                    first_out@,
                    head@,
                    ranks,
                    sets(up@),
                    w,
                    e,
                ),
        decreases n - u,
    {
        let start = first_out[u];
        let end = first_out[u + 1];
        let mut e: u32 = start;
        while e < end
            invariant
                contraction_input(first_out@, head@, *order),
                n == first_out@.len() - 1,
                ranks == order.rank_seq(),
                u < n,
                start == first_out@[u as int],
                end == first_out@[u + 1],
                start <= e <= end,
                up@.len() == n,
                up_wf(sets(up@)),
                forall|x: int, y: u32|
                    0 <= x < n && #[trigger] sets(up@)[x].contains(y) ==> linked(first_out@, head@, ranks, x, y as int),
                forall|w: int, f: int|
                    #[trigger] arc_of_node(first_out@, w, f) && (0 <= w < u || (w == u && f < e)) ==> arc_recorded(
                        first_out@,
                        head@,
                        ranks,
                        sets(up@),
                        w,
                        f,
                    ),
            decreases end - e,
        {
            proof {
                assert(offsets_monotone(first_out@));
                assert(first_out@[u + 1] <= first_out@[n as int]);
            }
            let v = head[e as usize];
            let ru = order.rank(u as u32);
            let rv = order.rank(v);
            let ghost before = sets(up@);
            if ru != rv {
                let (lo, hi) = if ru < rv { (ru, rv) } else { (rv, ru) };
                proof {
                    assert(arc_joins(first_out@, head@, ranks, u as int, e as int, lo as int, hi as int));
                    assert(before[lo as int] == up@[lo as int]@);
                }
                insert_sorted(&mut up[lo as usize], hi);
                proof {
                    let after = sets(up@);
                    assert forall|i: int| 0 <= i < n && i != lo implies after[i] == before[i] by {}
                    assert(after[lo as int] == up@[lo as int]@);
                    assert(grows(before, after));
                    assert forall|x: int| 0 <= x < n implies strictly_sorted(#[trigger] after[x]) && all_between(after[x], x, n as int) by {
                        if x == lo {
                            assert forall|k: int| 0 <= k < after[x].len() implies x < #[trigger] after[x][k] < n by {
                                let y = after[x][k];
                                assert(after[x].contains(y));
                                if y != hi {
                                    assert(before[x].contains(y));
                                    let j = choose|j: int| 0 <= j < before[x].len() && before[x][j] == y;
                                }
                            }
                        }
                    }
                    assert forall|x: int, y: u32| 0 <= x < n && #[trigger] after[x].contains(y) implies linked(first_out@, head@, ranks, x, y as int) by {
                        if x == lo && y == hi {
                        } else if x == lo {
                            assert(before[x].contains(y));
                        } else {
                            assert(before[x].contains(y));
                        }
                    }
                    assert forall|w: int, f: int|
                        #[trigger] arc_of_node(first_out@, w, f) && (0 <= w < u || (w == u && f < e + 1)) implies arc_recorded(first_out@, head@, ranks, after, w, f) by {
                        if w == u && f == e {
                        } else {
                            assert(arc_recorded(first_out@, head@, ranks, before, w, f));
                            let a = ranks[w] as int;
                            let b = ranks[head@[f] as int] as int;
                            if a < b {
                                assert(before[a].contains(b as u32));
                            }
                            if b < a {
                                assert(before[b].contains(a as u32));
                            }
                        }
                    }
                }
            } else {
                proof {
                    assert forall|w: int, f: int|
                        #[trigger] arc_of_node(first_out@, w, f) && (0 <= w < u || (w == u && f < e + 1)) implies arc_recorded(first_out@, head@, ranks, sets(up@), w, f) by {
                    }
                }
            }
            e = e + 1;
        }
        proof {
            assert forall|w: int, f: int|
                0 <= w < u + 1 && #[trigger] arc_of_node(first_out@, w, f) implies arc_recorded(first_out@, head@, ranks, sets(up@), w, f) by {
                if w == u {
                    assert(f < e);
                }
            }
        }
        u = u + 1;
    }
    proof {
        assert forall|x: int, y: int|
            0 <= x < y < sets(up@).len() && #[trigger] linked(first_out@, head@, ranks, x, y) implies sets(up@)[x].contains(y as u32) by {
            let (w, f) = choose|w: int, f: int| #[trigger] arc_joins(first_out@, head@, ranks, w, f, x, y);
            assert(arc_of_node(first_out@, w, f));
            assert(arc_recorded(first_out@, head@, ranks, sets(up@), w, f));
        }
    }
    up
}


/// Every upward arc is an input edge or fill from eliminating a node below
/// `bound`.
pub open spec fn justified_before(
    first_out: Seq<u32>,
    head: Seq<u32>,
    ranks: Seq<u32>,
    up: Seq<Seq<u32>>,
    bound: int,
) -> bool {
    forall|x: int, y: u32|
        0 <= x < up.len() && #[trigger] up[x].contains(y) ==> linked(first_out, head, ranks, x, y as int)
            || exists|c: int| 0 <= c < bound && c < x && #[trigger] up[c].contains(x as u32) && up[c].contains(y)
}

/// Nodes below `bound` have been eliminated: all their upward neighbours
/// other than the lowest one are upward neighbours of the lowest one.
pub open spec fn merged_before(up: Seq<Seq<u32>>, bound: int) -> bool {
    forall|c: int, k: int|
        0 <= c < bound && 1 <= k < up[c].len() ==> up[up[c][0] as int].contains(#[trigger] up[c][k])
}

proof fn lemma_clique_from_merges(up: Seq<Seq<u32>>, c: int, y: u32, z: u32)
    requires
        up_wf(up),
        merged_before(up, up.len() as int),
        0 <= c < up.len(),
        up[c].contains(y),
        up[c].contains(z),
        y < z,
    ensures
        up[y as int].contains(z),
    decreases up.len() - c,
{
    assert(strictly_sorted(up[c]) && all_between(up[c], c, up.len() as int));
    let ky = choose|k: int| 0 <= k < up[c].len() && up[c][k] == y;
    let kz = choose|k: int| 0 <= k < up[c].len() && up[c][k] == z;
    let p = up[c][0];
    assert(kz > ky);
    assert(up[p as int].contains(up[c][kz]));
    if ky == 0 {
    } else {
        assert(up[p as int].contains(up[c][ky]));
        assert(up[c][0] < up[c][ky]);
        assert(c < p);
        lemma_clique_from_merges(up, p as int, y, z);
    }
}

/// The elimination game in rank space: the upward lists of the chordal
/// supergraph of the input graph under `order`.
pub fn contract_upward(first_out: &Vec<u32>, head: &Vec<u32>, order: &NodeOrder) -> (up: Vec<Vec<u32>>)
    requires
        contraction_input(first_out@, head@, *order),
    ensures
        is_elimination_graph(first_out@, head@, order.rank_seq(), sets(up@)),
{
    let ghost ranks = order.rank_seq();
    let mut up = initial_upward(first_out, head, order);
    let n = up.len();
    let mut x: usize = 0;
    while x < n
        invariant
            up@.len() == n,
            n == ranks.len(),
            ranks == order.rank_seq(),
            x <= n,
            up_wf(sets(up@)),
            supergraph(first_out@, head@, ranks, sets(up@)),
            justified_before(first_out@, head@, ranks, sets(up@), x as int),
            merged_before(sets(up@), x as int),
        decreases n - x,
    {
        let ghost before = sets(up@);
        proof {
            assert(strictly_sorted(before[x as int]) && all_between(before[x as int], x as int, n as int));
            assert(before[x as int] == up@[x as int]@);
        }
        let len = up[x].len();
        if len > 0 {
            let p = up[x][0];
            proof {
                assert(x < p < n);
            }
            let mut k: usize = 1;
            while k < len
                invariant
                    up@.len() == n,
                    x < p < n,
                    1 <= k <= len,
                    len == before[x as int].len(),
                    p == before[x as int][0],
                    up_wf(before),
                    before.len() == n,
                    forall|i: int| 0 <= i < n && i != p ==> sets(up@)[i] == before[i],
                    grows(before, sets(up@)),
                    strictly_sorted(sets(up@)[p as int]),
                    all_between(sets(up@)[p as int], p as int, n as int),
                    forall|y: u32|
                        #[trigger] sets(up@)[p as int].contains(y) ==> before[p as int].contains(y) || exists|j: int|
                            1 <= j < len && before[x as int][j] == y,
                    forall|j: int| 1 <= j < k ==> sets(up@)[p as int].contains(#[trigger] before[x as int][j]),
                decreases len - k,
            {
                proof {
                    assert(sets(up@)[x as int] == before[x as int]);
                    assert(sets(up@)[x as int] == up@[x as int]@);
                    assert(strictly_sorted(before[x as int]) && all_between(before[x as int], x as int, n as int));
                    assert(before[x as int][0] < before[x as int][k as int]);
                }
                let z = up[x][k];
                let ghost mid = sets(up@);
                proof {
                    assert(mid[p as int] == up@[p as int]@);
                }
                insert_sorted(&mut up[p as usize], z);
                proof {
                    let after = sets(up@);
                    assert(after[p as int] == up@[p as int]@);
                    assert forall|i: int| 0 <= i < n && i != p implies after[i] == before[i] by {
                        assert(after[i] == mid[i]);
                    }
                    assert forall|i: int, y: u32| 0 <= i < n && #[trigger] before[i].contains(y) implies after[i].contains(y) by {
                        if i == p {
                            assert(mid[i].contains(y));
                        }
                    }
                    assert forall|q: int| 0 <= q < after[p as int].len() implies p < #[trigger] after[p as int][q] < n by {
                        let y = after[p as int][q];
                        assert(after[p as int].contains(y));
                        if y != z {
                            assert(mid[p as int].contains(y));
                            let j = choose|j: int| 0 <= j < mid[p as int].len() && mid[p as int][j] == y;
                        }
                    }
                    assert forall|y: u32| #[trigger] after[p as int].contains(y) implies before[p as int].contains(y) || exists|j: int|
                        1 <= j < len && before[x as int][j] == y by {
                        if y != z {
                            assert(mid[p as int].contains(y));
                        } else {
                            assert(before[x as int][k as int] == y);
                        }
                    }
                    assert forall|j: int| 1 <= j < k + 1 implies after[p as int].contains(#[trigger] before[x as int][j]) by {
                        if j < k {
                            assert(mid[p as int].contains(before[x as int][j]));
                        }
                    }
                }
                k = k + 1;
            }
            proof {
                let after = sets(up@);
                assert forall|i: int| 0 <= i < n implies strictly_sorted(#[trigger] after[i]) && all_between(after[i], i, n as int) by {
                    if i != p {
                        assert(after[i] == before[i]);
                    }
                }
                assert forall|a: int, b: int|
                    0 <= a < b < after.len() && #[trigger] linked(first_out@, head@, ranks, a, b) implies after[a].contains(b as u32) by {
                    assert(before[a].contains(b as u32));
                }
                assert forall|i: int, y: u32| 0 <= i < after.len() && #[trigger] after[i].contains(y) implies linked(first_out@, head@, ranks, i, y as int)
                    || exists|c: int| 0 <= c < x + 1 && c < i && #[trigger] after[c].contains(i as u32) && after[c].contains(y) by {
                    if i == p && !before[i].contains(y) {
                        let j = choose|j: int| 1 <= j < len && before[x as int][j] == y;
                        assert(after[x as int] == before[x as int]);
                        assert(after[x as int].contains(i as u32));
                        assert(after[x as int].contains(y));
                    } else {
                        assert(before[i].contains(y)) by {
                            if i != p {
                                assert(after[i] == before[i]);
                            }
                        }
                        if !linked(first_out@, head@, ranks, i, y as int) {
                            let c = choose|c: int| 0 <= c < x && c < i && #[trigger] before[c].contains(i as u32) && before[c].contains(y);
                            assert(after[c] == before[c]);
                            assert(after[c].contains(i as u32));
                        }
                    }
                }
                assert forall|c: int, q: int| 0 <= c < x + 1 && 1 <= q < after[c].len() implies after[after[c][0] as int].contains(#[trigger] after[c][q]) by {
                    assert(after[c] == before[c]);
                    if c < x {
                        assert(before[before[c][0] as int].contains(before[c][q]));
                    }
                }
            }
        } else {
            proof {
                assert forall|c: int, q: int| 0 <= c < x + 1 && 1 <= q < before[c].len() implies before[before[c][0] as int].contains(#[trigger] before[c][q]) by {
                }
            }
        }
        x = x + 1;
    }
    proof {
        let fin = sets(up@);
        assert forall|c: int, y: u32, z: u32|
            0 <= c < fin.len() && #[trigger] fin[c].contains(y) && #[trigger] fin[c].contains(z) && y < z implies fin[y as int].contains(z) by {
            lemma_clique_from_merges(fin, c, y, z);
        }
    }
    up
}

} // verus!
