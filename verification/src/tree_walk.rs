//! Elimination tree walks on a customized CCH: from a node up to the root of
//! its elimination tree, relaxing the upward arcs of every node on the way.
use vstd::prelude::*;
use crate::graph::{arc_of_node, csr_wf, is_monotone, INFINITY};
use crate::cch::{elimination_tree_of, lemma_upward_csr_facts, tree_points_up, upward, upward_csr_wf, upward_lists};
use crate::contraction::clique;
use crate::graph::strictly_sorted;
use crate::cch::CCHT;
use crate::customized::{BorrowedGraph, Customized};

verus! {

/// A weighted graph on `n` nodes in CSR form whose arcs all point to a
/// higher node.
pub open spec fn upward_weighted(first_out: Seq<u32>, head: Seq<u32>, weight: Seq<u32>, n: int) -> bool {
    &&& first_out.len() == n + 1
    &&& csr_wf(first_out, head.len() as int)
    &&& weight.len() == head.len()
    &&& head.len() <= u32::MAX
    &&& forall|u: int, e: int| #[trigger] arc_of_node(first_out, u, e) ==> u < head[e] < n
}

/// The nodes from `s` up the elimination tree to its root.
pub open spec fn tree_chain(tree: Seq<Option<u32>>, s: int) -> Seq<u32>
    decreases tree.len() - s,
{
    if 0 <= s < tree.len() {
        match tree[s] {
            Some(p) => if s < p < tree.len() {
                seq![s as u32] + tree_chain(tree, p as int)
            } else {
                seq![s as u32]
            },
            None => seq![s as u32],
        }
    } else {
        Seq::empty()
    }
}

/// Strictly increasing, starting at `s`, every node below `n`.
pub open spec fn chain_shape(chain: Seq<u32>, s: int, n: int) -> bool {
    &&& chain.len() >= 1
    &&& chain[0] == s
    &&& forall|i: int, j: int| 0 <= i < j < chain.len() ==> chain[i] < chain[j]
    &&& forall|i: int| 0 <= i < chain.len() ==> (#[trigger] chain[i] as int) < n
}

pub proof fn lemma_tree_chain_shape(tree: Seq<Option<u32>>, s: int)
    requires
        0 <= s < tree.len(),
        s <= u32::MAX,
    ensures
        chain_shape(tree_chain(tree, s), s, tree.len() as int),
    decreases tree.len() - s,
{
    match tree[s] {
        Some(p) => if s < p < tree.len() {
            lemma_tree_chain_shape(tree, p as int);
            let rest = tree_chain(tree, p as int);
            let c = seq![s as u32] + rest;
            assert(tree_chain(tree, s) == c);
            assert(c[0] == s);
            assert forall|i: int, j: int| 0 <= i < j < c.len() implies c[i] < c[j] by {
                if i > 0 {
                    assert(c[i] == rest[i - 1] && c[j] == rest[j - 1]);
                } else {
                    assert(c[j] == rest[j - 1]);
                    if j > 1 {
                        assert(rest[0] < rest[j - 1]);
                    }
                }
            }
            assert forall|i: int| 0 <= i < c.len() implies (#[trigger] c[i] as int) < tree.len() by {
                if i > 0 {
                    assert(c[i] == rest[i - 1]);
                }
            }
        } else {
            assert(tree_chain(tree, s) == seq![s as u32]);
        },
        None => {
            assert(tree_chain(tree, s) == seq![s as u32]);
        },
    }
}

/// The chain of `s` as a vector.
pub fn chain_of(tree: &Vec<Option<u32>>, s: u32) -> (chain: Vec<u32>)
    requires
        (s as int) < tree@.len(),
    ensures
        chain@ == tree_chain(tree@, s as int),
{
    let mut chain: Vec<u32> = Vec::new();
    let mut cur: u32 = s;
    let mut done = false;
    while !done
        invariant
            (cur as int) < tree@.len(),
            !done ==> chain@ + tree_chain(tree@, cur as int) == tree_chain(tree@, s as int),
            done ==> chain@ == tree_chain(tree@, s as int),
        decreases tree@.len() - cur + (if done { 0int } else { 1int }),
    {
        chain.push(cur);
        let next = match tree[cur as usize] {
            Some(p) => if cur < p && (p as usize) < tree.len() {
                Some(p)
            } else {
                None
            },
            None => None,
        };
        match next {
            Some(p) => {
                proof {
                    assert(tree_chain(tree@, cur as int) == seq![cur] + tree_chain(tree@, p as int));
                    assert(chain@ + tree_chain(tree@, p as int) =~= tree_chain(tree@, s as int));
                }
                cur = p;
            },
            None => {
                proof {
                    assert(tree_chain(tree@, cur as int) == seq![cur]);
                }
                done = true;
            },
        }
    }
    chain
}

/// The parent recorded for `v` explains its distance: an arc from a node
/// already settled, whose distance plus the arc's weight is `v`'s.
pub open spec fn parent_ok(
    first_out: Seq<u32>,
    head: Seq<u32>,
    weight: Seq<u32>,
    settled: Seq<u32>,
    dist: Seq<u32>,
    parents: Seq<(u32, u32)>,
    v: int,
) -> bool {
    let (u, e) = parents[v];
    &&& arc_of_node(first_out, u as int, e as int)
    &&& head[e as int] == v
    &&& dist[v] == dist[u as int] + weight[e as int]
    &&& settled.contains(u)
}

/// What a walk from `s` leaves behind once the first `k` nodes of `chain`
/// are settled: `s` at distance 0, every distance at most `INFINITY`, every
/// finite distance explained by its parent, and no arc leaving a settled
/// node that could still shorten a distance.
pub open spec fn walk_state(
    first_out: Seq<u32>,
    head: Seq<u32>,
    weight: Seq<u32>,
    chain: Seq<u32>,
    k: int,
    s: u32,
    dist: Seq<u32>,
    parents: Seq<(u32, u32)>,
) -> bool {
    let n = first_out.len() - 1;
    &&& dist.len() == n
    &&& parents.len() == n
    &&& dist[s as int] == 0
    &&& forall|v: int| 0 <= v < n ==> #[trigger] dist[v] <= INFINITY
    &&& forall|v: int|
        0 <= v < n && v != s && #[trigger] dist[v] < INFINITY ==> parent_ok(first_out, head, weight, chain.take(k), dist, parents, v)
    &&& forall|j: int, e: int|
        0 <= j < k && #[trigger] arc_of_node(first_out, chain[j] as int, e) ==> dist[head[e] as int] <= dist[chain[j] as int] + weight[e]
}

/// Relaxes every arc leaving `u`.
fn relax_arcs(
    first_out: &Vec<u32>,
    head: &Vec<u32>,
    weight: &Vec<u32>,
    u: u32,
    dist: &mut Vec<u32>,
    parents: &mut Vec<(u32, u32)>,
)
    requires
        upward_weighted(first_out@, head@, weight@, first_out@.len() - 1),
        (u as int) < first_out@.len() - 1,
        old(dist)@.len() == first_out@.len() - 1,
        old(parents)@.len() == first_out@.len() - 1,
        forall|v: int| 0 <= v < old(dist)@.len() ==> #[trigger] old(dist)@[v] <= INFINITY,
    ensures
        final(dist)@.len() == old(dist)@.len(),
        final(parents)@.len() == old(parents)@.len(),
        forall|v: int| 0 <= v <= u ==> #[trigger] final(dist)@[v] == old(dist)@[v],
        forall|v: int| 0 <= v < old(dist)@.len() ==> #[trigger] final(dist)@[v] <= old(dist)@[v],
        forall|v: int|
            0 <= v < old(dist)@.len() && #[trigger] final(dist)@[v] == old(dist)@[v] ==> final(parents)@[v] == old(parents)@[v],
        forall|v: int|
            0 <= v < old(dist)@.len() && #[trigger] final(dist)@[v] < old(dist)@[v] ==> {
                let (p, e) = final(parents)@[v];
                &&& p == u
                &&& arc_of_node(first_out@, u as int, e as int)
                &&& head@[e as int] == v
                &&& final(dist)@[v] == old(dist)@[u as int] + weight@[e as int]
            },
        forall|e: int|
            #[trigger] arc_of_node(first_out@, u as int, e) ==> final(dist)@[head@[e] as int] <= old(dist)@[u as int] + weight@[e],
{
    let ghost d0 = dist@;
    let ghost p0 = parents@;
    let n = dist.len();
    let du = dist[u as usize];
    let start = first_out[u as usize];
    let end = first_out[u as usize + 1];
    proof {
        assert(first_out@[u as int] <= first_out@[u as int + 1]);
        assert(first_out@[u as int + 1] <= first_out@[first_out@.len() - 1]);
    }
    let mut e: u32 = start;
    while e < end
        invariant
            upward_weighted(first_out@, head@, weight@, first_out@.len() - 1),
            n == d0.len(),
            (u as int) < n,
            first_out@.len() - 1 == n,
            start == first_out@[u as int],
            end == first_out@[u as int + 1],
            start <= e <= end,
            end <= head@.len(),
            du == d0[u as int],
            dist@.len() == n,
            parents@.len() == n,
            forall|v: int| 0 <= v < n ==> #[trigger] d0[v] <= INFINITY,
            forall|v: int| 0 <= v <= u ==> #[trigger] dist@[v] == d0[v],
            forall|v: int| 0 <= v < n ==> #[trigger] dist@[v] <= d0[v],
            forall|v: int| 0 <= v < n && #[trigger] dist@[v] == d0[v] ==> parents@[v] == p0[v],
            forall|v: int|
                0 <= v < n && #[trigger] dist@[v] < d0[v] ==> {
                    let (p, a) = parents@[v];
                    &&& p == u
                    &&& arc_of_node(first_out@, u as int, a as int)
                    &&& head@[a as int] == v
                    &&& dist@[v] == d0[u as int] + weight@[a as int]
                },
            forall|a: int| start <= a < e ==> dist@[head@[a] as int] <= d0[u as int] + weight@[a],
        decreases end - e,
    {
        proof {
            assert(arc_of_node(first_out@, u as int, e as int));
        }
        let v = head[e as usize];
        let w = weight[e as usize];
        let cand: u64 = du as u64 + w as u64;
        if cand < dist[v as usize] as u64 {
            dist.set(v as usize, cand as u32);
            parents.set(v as usize, (u, e));
        }
        proof {
            assert forall|a: int| start <= a < e + 1 implies dist@[head@[a] as int] <= d0[u as int] + weight@[a] by {
                if a < e {
                    assert(arc_of_node(first_out@, u as int, a));
                }
            }
        }
        e = e + 1;
    }
    proof {
        assert forall|a: int| #[trigger] arc_of_node(first_out@, u as int, a) implies dist@[head@[a] as int] <= d0[u as int] + weight@[a] by {
        }
    }
}

/// Settles the nodes of `chain` in order, starting from the distances of a
/// fresh walk from `chain[0]`.
fn walk_chain(
    first_out: &Vec<u32>,
    head: &Vec<u32>,
    weight: &Vec<u32>,
    chain: &Vec<u32>,
    dist: &mut Vec<u32>,
    parents: &mut Vec<(u32, u32)>,
)
    requires
        upward_weighted(first_out@, head@, weight@, first_out@.len() - 1),
        chain_shape(chain@, chain@[0] as int, first_out@.len() - 1),
        old(dist)@.len() == first_out@.len() - 1,
        old(parents)@.len() == first_out@.len() - 1,
        forall|v: int| 0 <= v < old(dist)@.len() ==> #[trigger] old(dist)@[v] == if v == chain@[0] { 0 } else { INFINITY },
    ensures
        walk_state(first_out@, head@, weight@, chain@, chain@.len() as int, chain@[0], final(dist)@, final(parents)@),
        forall|v: int| 0 <= v < final(dist)@.len() && #[trigger] final(dist)@[v] == INFINITY ==> final(parents)@[v] == old(parents)@[v],
{
    let ghost s = chain@[0];
    let ghost n = first_out@.len() - 1;
    let ghost p_init = parents@;
    proof {
        assert forall|v: int| 0 <= v < n && v != s && #[trigger] dist@[v] < INFINITY implies parent_ok(
            first_out@,
            head@,
            weight@,
            chain@.take(0),
            dist@,
            parents@,
            v,
        ) by {
            assert(dist@[v] == INFINITY);
        }
    }
    let mut k: usize = 0;
    while k < chain.len()
        invariant
            upward_weighted(first_out@, head@, weight@, n),
            n == first_out@.len() - 1,
            chain_shape(chain@, s as int, n),
            s == chain@[0],
            k <= chain@.len(),
            walk_state(first_out@, head@, weight@, chain@, k as int, s, dist@, parents@),
            p_init.len() == n,
            forall|v: int| 0 <= v < n && #[trigger] dist@[v] == INFINITY ==> parents@[v] == p_init[v],
        decreases chain@.len() - k,
    {
        let u = chain[k];
        let ghost d0 = dist@;
        let ghost p0 = parents@;
        relax_arcs(first_out, head, weight, u, dist, parents);
        proof {
            assert(chain@[0] <= chain@[k as int]) by {
                if k > 0 {
                    assert(chain@[0] < chain@[k as int]);
                }
            }
            let settled = chain@.take(k + 1);
            assert(settled.contains(u)) by {
                assert(settled[k as int] == u);
            }
            assert forall|v: int| 0 <= v < n && v != s && #[trigger] dist@[v] < INFINITY implies parent_ok(
                first_out@,
                head@,
                weight@,
                settled,
                dist@,
                parents@,
                v,
            ) by {
                if dist@[v] < d0[v] {
                } else {
                    assert(d0[v] < INFINITY);
                    assert(parent_ok(first_out@, head@, weight@, chain@.take(k as int), d0, p0, v));
                    let (p, e) = p0[v];
                    let i = choose|i: int| 0 <= i < k && chain@.take(k as int)[i] == p;
                    assert(chain@[i] < chain@[k as int]);
                    assert(dist@[p as int] == d0[p as int]);
                    assert(settled[i] == p);
                }
            }
            assert forall|v: int| 0 <= v < n && #[trigger] dist@[v] == INFINITY implies parents@[v] == p_init[v] by {
                assert(d0[v] <= INFINITY);
                assert(d0[v] == INFINITY);
            }
            assert forall|j: int, e: int|
                0 <= j < k + 1 && #[trigger] arc_of_node(first_out@, chain@[j] as int, e) implies dist@[head@[e] as int]
                <= dist@[chain@[j] as int] + weight@[e] by {
                if j < k {
                    assert(chain@[j] < chain@[k as int]);
                    assert(d0[head@[e] as int] <= d0[chain@[j] as int] + weight@[e]);
                }
            }
        }
        k = k + 1;
    }
}

/// The nodes on both chains, in the order of `fw_chain`, that both walks
/// reached, each with the sum of its two distances.
pub open spec fn meeting_candidates(fw_chain: Seq<u32>, bw_chain: Seq<u32>, fw: Seq<u32>, bw: Seq<u32>) -> Seq<(u32, u32)>
    decreases fw_chain.len(),
{
    if fw_chain.len() == 0 {
        Seq::empty()
    } else {
        let rest = meeting_candidates(fw_chain.drop_last(), bw_chain, fw, bw);
        let v = fw_chain.last();
        if bw_chain.contains(v) && fw[v as int] < INFINITY && bw[v as int] < INFINITY {
            rest.push((v, (fw[v as int] + bw[v as int]) as u32))
        } else {
            rest
        }
    }
}

/// Every candidate lies on both chains, both walks reached it, and its
/// distance is the sum of the two.
pub proof fn lemma_meeting_candidates_facts(fw_chain: Seq<u32>, bw_chain: Seq<u32>, fw: Seq<u32>, bw: Seq<u32>)
    ensures
        forall|i: int|
            0 <= i < meeting_candidates(fw_chain, bw_chain, fw, bw).len() ==> {
                let (v, d) = #[trigger] meeting_candidates(fw_chain, bw_chain, fw, bw)[i];
                &&& fw_chain.contains(v)
                &&& bw_chain.contains(v)
                &&& fw[v as int] < INFINITY
                &&& bw[v as int] < INFINITY
                &&& d == fw[v as int] + bw[v as int]
            },
    decreases fw_chain.len(),
{
    if fw_chain.len() > 0 {
        let rest = fw_chain.drop_last();
        lemma_meeting_candidates_facts(rest, bw_chain, fw, bw);
        let r = meeting_candidates(rest, bw_chain, fw, bw);
        let all = meeting_candidates(fw_chain, bw_chain, fw, bw);
        assert forall|i: int| 0 <= i < all.len() implies {
            let (v, d) = #[trigger] all[i];
            &&& fw_chain.contains(v)
            &&& bw_chain.contains(v)
            &&& fw[v as int] < INFINITY
            &&& bw[v as int] < INFINITY
            &&& d == fw[v as int] + bw[v as int]
        } by {
            if i < r.len() {
                assert(all[i] == r[i]);
                let v = r[i].0;
                let j = choose|j: int| 0 <= j < rest.len() && rest[j] == v;
                assert(fw_chain[j] == v);
            } else {
                assert(fw_chain[fw_chain.len() - 1] == fw_chain.last());
            }
        }
    }
}

/// Ordered by distance, shortest first.
pub open spec fn sorted_by_distance(s: Seq<(u32, u32)>) -> bool {
    forall|i: int, j: int| 0 <= i <= j < s.len() ==> s[i].1 <= s[j].1
}

/// Merges the two chains (both strictly increasing) and collects their
/// common nodes that both walks reached.
pub fn common_reached(fw_chain: &Vec<u32>, bw_chain: &Vec<u32>, fw: &Vec<u32>, bw: &Vec<u32>) -> (out: Vec<(u32, u32)>)
    requires
        forall|i: int, j: int| 0 <= i < j < fw_chain@.len() ==> fw_chain@[i] < fw_chain@[j],
        forall|i: int, j: int| 0 <= i < j < bw_chain@.len() ==> bw_chain@[i] < bw_chain@[j],
        forall|i: int| 0 <= i < fw_chain@.len() ==> (#[trigger] fw_chain@[i] as int) < fw@.len(),
        fw@.len() == bw@.len(),
    ensures
        out@ == meeting_candidates(fw_chain@, bw_chain@, fw@, bw@),
{
    let mut out: Vec<(u32, u32)> = Vec::new();
    let mut j: usize = 0;
    let mut i: usize = 0;
    while i < fw_chain.len()
        invariant
            forall|a: int, b: int| 0 <= a < b < fw_chain@.len() ==> fw_chain@[a] < fw_chain@[b],
            forall|a: int, b: int| 0 <= a < b < bw_chain@.len() ==> bw_chain@[a] < bw_chain@[b],
            forall|a: int| 0 <= a < fw_chain@.len() ==> (#[trigger] fw_chain@[a] as int) < fw@.len(),
            fw@.len() == bw@.len(),
            i <= fw_chain@.len(),
            j <= bw_chain@.len(),
            forall|b: int, a: int| 0 <= b < j && i <= a < fw_chain@.len() ==> bw_chain@[b] < fw_chain@[a],
            out@ == meeting_candidates(fw_chain@.take(i as int), bw_chain@, fw@, bw@),
        decreases fw_chain@.len() - i,
    {
        let v = fw_chain[i];
        while j < bw_chain.len() && bw_chain[j] < v
            invariant
                forall|a: int, b: int| 0 <= a < b < fw_chain@.len() ==> fw_chain@[a] < fw_chain@[b],
                forall|a: int, b: int| 0 <= a < b < bw_chain@.len() ==> bw_chain@[a] < bw_chain@[b],
                i < fw_chain@.len(),
                v == fw_chain@[i as int],
                j <= bw_chain@.len(),
                forall|b: int, a: int| 0 <= b < j && i <= a < fw_chain@.len() ==> bw_chain@[b] < fw_chain@[a],
            decreases bw_chain@.len() - j,
        {
            proof {
                assert forall|b: int, a: int| 0 <= b < j + 1 && i <= a < fw_chain@.len() implies bw_chain@[b] < fw_chain@[a] by {
                    if b == j && a > i {
                        assert(fw_chain@[i as int] < fw_chain@[a]);
                    }
                }
            }
            j = j + 1;
        }
        let on_both = j < bw_chain.len() && bw_chain[j] == v;
        proof {
            assert(on_both == bw_chain@.contains(v)) by {
                if !on_both && bw_chain@.contains(v) {
                    let t = choose|t: int| 0 <= t < bw_chain@.len() && bw_chain@[t] == v;
                    if t < j {
                        assert(bw_chain@[t] < fw_chain@[i as int]);
                    } else if t > j {
                        assert(bw_chain@[j as int] < bw_chain@[t]);
                    }
                }
            }
            assert(fw_chain@.take(i + 1).drop_last() =~= fw_chain@.take(i as int));
            assert(fw_chain@.take(i + 1).last() == v);
        }
        if on_both && fw[v as usize] < INFINITY && bw[v as usize] < INFINITY {
            out.push((v, fw[v as usize] + bw[v as usize]));
        }
        i = i + 1;
    }
    proof {
        assert(fw_chain@.take(fw_chain@.len() as int) =~= fw_chain@);
    }
    out
}

/// The candidates ordered by distance; candidates with equal distances keep
/// their order.
pub fn sort_by_distance(cands: &Vec<(u32, u32)>) -> (out: Vec<(u32, u32)>)
    ensures
        out@.to_multiset() == cands@.to_multiset(),
        sorted_by_distance(out@),
{
    let mut out: Vec<(u32, u32)> = Vec::new();
    let mut i: usize = 0;
    proof {
        assert(cands@.take(0) =~= out@);
    }
    while i < cands.len()
        invariant
            i <= cands@.len(),
            out@.to_multiset() == cands@.take(i as int).to_multiset(),
            sorted_by_distance(out@),
        decreases cands@.len() - i,
    {
        let c = cands[i];
        let mut pos: usize = 0;
        while pos < out.len() && out[pos].1 <= c.1
            invariant
                pos <= out@.len(),
                forall|k: int| 0 <= k < pos ==> out@[k].1 <= c.1,
            decreases out@.len() - pos,
        {
            pos = pos + 1;
        }
        let ghost before = out@;
        out.insert(pos, c);
        proof {
            assert(cands@.take(i + 1) =~= cands@.take(i as int).push(c));
            assert(out@ == before.insert(pos as int, c));
            vstd::seq_lib::to_multiset_insert(before, pos as int, c);
            vstd::seq_lib::to_multiset_build(cands@.take(i as int), c);
            assert(out@.to_multiset() == before.to_multiset().insert(c));
            assert(cands@.take(i as int).push(c).to_multiset() == cands@.take(i as int).to_multiset().insert(c));
            assert forall|a: int, b: int| 0 <= a <= b < out@.len() implies out@[a].1 <= out@[b].1 by {
                if pos < before.len() {
                    assert(before[pos as int].1 > c.1);
                }
                if a < pos && b > pos {
                    assert(before[a].1 <= before[b - 1].1);
                } else if a > pos {
                    assert(before[a - 1].1 <= before[b - 1].1);
                } else if a == pos && b > pos {
                    assert(before[pos as int].1 <= before[b - 1].1);
                }
            }
        }
        i = i + 1;
    }
    proof {
        assert(cands@.take(cands@.len() as int) =~= cands@);
    }
    out
}

/// Some finished walk from `s` up the elimination tree leaves the
/// distances `d`.
pub open spec fn walk_leaves(first_out: Seq<u32>, head: Seq<u32>, weight: Seq<u32>, tree: Seq<Option<u32>>, s: u32, d: Seq<u32>) -> bool {
    let chain = tree_chain(tree, s as int);
    exists|p: Seq<(u32, u32)>| #[trigger] walk_state(first_out, head, weight, chain, chain.len() as int, s, d, p)
}

/// The distances a walk from `s` up the elimination tree leaves behind.
pub open spec fn walk_dist(first_out: Seq<u32>, head: Seq<u32>, weight: Seq<u32>, tree: Seq<Option<u32>>, s: u32) -> Seq<u32> {
    choose|d: Seq<u32>| #[trigger] walk_leaves(first_out, head, weight, tree, s, d)
}

/// Two finished walks along the same chain agree on every distance: the
/// distances are determined by the graph, the chain and the source.
pub proof fn lemma_walk_distances_unique(
    first_out: Seq<u32>,
    head: Seq<u32>,
    weight: Seq<u32>,
    chain: Seq<u32>,
    s: u32,
    d1: Seq<u32>,
    p1: Seq<(u32, u32)>,
    d2: Seq<u32>,
    p2: Seq<(u32, u32)>,
)
    requires
        upward_weighted(first_out, head, weight, first_out.len() - 1),
        chain_shape(chain, s as int, first_out.len() - 1),
        walk_state(first_out, head, weight, chain, chain.len() as int, s, d1, p1),
        walk_state(first_out, head, weight, chain, chain.len() as int, s, d2, p2),
    ensures
        d1 == d2,
{
    let n = first_out.len() - 1;
    assert forall|v: int| 0 <= v < n implies d1[v] == d2[v] by {
        lemma_walk_distance_unique_at(first_out, head, weight, chain, s, d1, p1, d2, p2, v);
    }
    assert(d1 =~= d2);
}

proof fn lemma_walk_distance_unique_at(
    first_out: Seq<u32>,
    head: Seq<u32>,
    weight: Seq<u32>,
    chain: Seq<u32>,
    s: u32,
    d1: Seq<u32>,
    p1: Seq<(u32, u32)>,
    d2: Seq<u32>,
    p2: Seq<(u32, u32)>,
    v: int,
)
    requires
        upward_weighted(first_out, head, weight, first_out.len() - 1),
        chain_shape(chain, s as int, first_out.len() - 1),
        walk_state(first_out, head, weight, chain, chain.len() as int, s, d1, p1),
        walk_state(first_out, head, weight, chain, chain.len() as int, s, d2, p2),
        0 <= v < first_out.len() - 1,
    ensures
        d1[v] == d2[v],
    decreases v,
{
    lemma_walk_one_side(first_out, head, weight, chain, s, d1, p1, d2, p2, v);
    lemma_walk_one_side(first_out, head, weight, chain, s, d2, p2, d1, p1, v);
}

proof fn lemma_walk_one_side(
    first_out: Seq<u32>,
    head: Seq<u32>,
    weight: Seq<u32>,
    chain: Seq<u32>,
    s: u32,
    d1: Seq<u32>,
    p1: Seq<(u32, u32)>,
    d2: Seq<u32>,
    p2: Seq<(u32, u32)>,
    v: int,
)
    requires
        upward_weighted(first_out, head, weight, first_out.len() - 1),
        chain_shape(chain, s as int, first_out.len() - 1),
        walk_state(first_out, head, weight, chain, chain.len() as int, s, d1, p1),
        walk_state(first_out, head, weight, chain, chain.len() as int, s, d2, p2),
        0 <= v < first_out.len() - 1,
    ensures
        d1[v] < INFINITY ==> d2[v] <= d1[v],
    decreases v, 0int,
{
    if d1[v] < INFINITY && v != s {
        assert(parent_ok(first_out, head, weight, chain.take(chain.len() as int), d1, p1, v));
        let (u, e) = p1[v];
        assert(arc_of_node(first_out, u as int, e as int));
        assert(u < v);
        lemma_walk_distance_unique_at(first_out, head, weight, chain, s, d1, p1, d2, p2, u as int);
        let j = choose|j: int| 0 <= j < chain.len() && chain.take(chain.len() as int)[j] == u;
        assert(chain[j] == u);
        assert(arc_of_node(first_out, chain[j] as int, e as int));
        assert(d2[head[e as int] as int] <= d2[chain[j] as int] + weight[e as int]);
    }
}

/// The total weight of the traced arcs.
pub open spec fn arcs_weight(weight: Seq<u32>, arcs: Seq<(u32, u32, u32)>) -> int
    decreases arcs.len(),
{
    if arcs.len() == 0 {
        0
    } else {
        arcs_weight(weight, arcs.drop_last()) + weight[arcs.last().2 as int]
    }
}

/// Within every upward neighbourhood the heads increase with the arc ids,
/// and two upward neighbours of a node are joined by an arc from the lower
/// to the higher (the neighbourhoods of an elimination graph are cliques).
pub open spec fn chordal_upward(first_out: Seq<u32>, head: Seq<u32>) -> bool {
    &&& forall|x: int, e1: int, e2: int|
        #[trigger] arc_of_node(first_out, x, e1) && #[trigger] arc_of_node(first_out, x, e2) && e1 < e2 ==> head[e1] < head[e2]
    &&& forall|x: int, e1: int, e2: int|
        #[trigger] arc_of_node(first_out, x, e1) && #[trigger] arc_of_node(first_out, x, e2) && head[e1] < head[e2] ==> exists|e3: int|
            #[trigger] arc_of_node(first_out, head[e1] as int, e3) && head[e3] == head[e2]
}

/// The arcs lead from `s` to `v`, each from the head of the one before.
pub open spec fn arc_path(first_out: Seq<u32>, head: Seq<u32>, arcs: Seq<(u32, u32, u32)>, s: u32, v: u32) -> bool {
    &&& arcs.len() == 0 ==> s == v
    &&& arcs.len() > 0 ==> arcs[0].0 == s && arcs.last().1 == v
    &&& forall|i: int|
        0 <= i < arcs.len() ==> #[trigger] arc_of_node(first_out, arcs[i].0 as int, arcs[i].2 as int) && head[arcs[i].2 as int]
            == arcs[i].1
    &&& forall|i: int| 0 <= i < arcs.len() - 1 ==> #[trigger] arcs[i].1 == arcs[i + 1].0
}

/// An upward CSR graph whose upward lists form an elimination graph's
/// cliques is chordal in the sense of `chordal_upward`.
pub proof fn lemma_chordal_from_cliques(first_out: Seq<u32>, head: Seq<u32>)
    requires
        upward_csr_wf(first_out, head),
        clique(upward_lists(first_out, head)),
    ensures
        chordal_upward(first_out, head),
{
    let ul = upward_lists(first_out, head);
    assert forall|x: int, e1: int, e2: int|
        #[trigger] arc_of_node(first_out, x, e1) && #[trigger] arc_of_node(first_out, x, e2) && e1 < e2 implies head[e1] < head[e2] by {
        lemma_upward_csr_facts(first_out, head, x, e1);
        lemma_upward_csr_facts(first_out, head, x, e2);
        assert(ul[x] == upward(first_out, head, x));
        assert(strictly_sorted(ul[x]));
        assert(ul[x][e1 - first_out[x]] == head[e1]);
        assert(ul[x][e2 - first_out[x]] == head[e2]);
    }
    assert forall|x: int, e1: int, e2: int|
        #[trigger] arc_of_node(first_out, x, e1) && #[trigger] arc_of_node(first_out, x, e2) && head[e1] < head[e2] implies exists|e3: int|
            #[trigger] arc_of_node(first_out, head[e1] as int, e3) && head[e3] == head[e2] by {
        lemma_upward_csr_facts(first_out, head, x, e1);
        lemma_upward_csr_facts(first_out, head, x, e2);
        let y = head[e1];
        let z = head[e2];
        assert(ul[x] == upward(first_out, head, x));
        assert(ul[x][e1 - first_out[x]] == y);
        assert(ul[x][e2 - first_out[x]] == z);
        assert(ul[x].contains(y));
        assert(ul[x].contains(z));
        assert(ul[y as int].contains(z));
        assert(ul[y as int] == upward(first_out, head, y as int));
        let k = choose|k: int| 0 <= k < ul[y as int].len() && ul[y as int][k] == z;
        assert(first_out[y as int] <= first_out[y as int + 1]);
        let e3 = first_out[y as int] + k;
        assert(arc_of_node(first_out, y as int, e3));
        assert(head[e3] == z);
    }
}

/// On a chordal upward graph every upward neighbour of `x` is an ancestor
/// of `x` in its elimination tree.
proof fn lemma_neighbour_on_chain(first_out: Seq<u32>, head: Seq<u32>, weight: Seq<u32>, tree: Seq<Option<u32>>, x: int, e: int)
    requires
        upward_weighted(first_out, head, weight, first_out.len() - 1),
        chordal_upward(first_out, head),
        elimination_tree_of(first_out, head, tree),
        arc_of_node(first_out, x, e),
    ensures
        tree_chain(tree, x).contains(head[e]),
    decreases head[e] - x,
{
    let f = first_out[x] as int;
    assert(arc_of_node(first_out, x, f));
    let y = head[f];
    assert(tree[x] == Some(y));
    assert(x < y < tree.len());
    assert(tree_chain(tree, x) == seq![x as u32] + tree_chain(tree, y as int));
    lemma_tree_chain_shape(tree, y as int);
    if head[e] == y {
        assert(tree_chain(tree, x)[1] == y);
    } else {
        assert(f < e);
        assert(y < head[e]);
        let e3 = choose|e3: int| #[trigger] arc_of_node(first_out, y as int, e3) && head[e3] == head[e];
        lemma_neighbour_on_chain(first_out, head, weight, tree, y as int, e3);
        let k = choose|k: int| 0 <= k < tree_chain(tree, y as int).len() && tree_chain(tree, y as int)[k] == head[e];
        assert(tree_chain(tree, x)[k + 1] == head[e]);
    }
}

/// An ancestor's ancestors are ancestors.
proof fn lemma_chain_transitive(tree: Seq<Option<u32>>, x: int, y: u32, z: u32)
    requires
        0 <= x < tree.len(),
        x <= u32::MAX,
        tree_chain(tree, x).contains(y),
        tree_chain(tree, y as int).contains(z),
    ensures
        tree_chain(tree, x).contains(z),
    decreases tree.len() - x,
{
    if y as int != x {
        match tree[x] {
            Some(p) => if x < p < tree.len() {
                let c = tree_chain(tree, x);
                let rest = tree_chain(tree, p as int);
                assert(c == seq![x as u32] + rest);
                let k = choose|k: int| 0 <= k < c.len() && c[k] == y;
                if k == 0 {
                    assert(c[0] == x as u32);
                    assert(false);
                }
                assert(rest[k - 1] == y);
                lemma_chain_transitive(tree, p as int, y, z);
                let j = choose|j: int| 0 <= j < rest.len() && rest[j] == z;
                assert(c[j + 1] == z);
            } else {
                assert(tree_chain(tree, x) == seq![x as u32]);
                assert(tree_chain(tree, x)[0] == y);
            },
            None => {
                assert(tree_chain(tree, x) == seq![x as u32]);
                assert(tree_chain(tree, x)[0] == y);
            },
        }
    } else {
        assert(tree_chain(tree, x) == tree_chain(tree, y as int));
    }
}

/// On a chordal upward graph with its elimination tree, a finished walk
/// from `s` gives every node reachable from `s` a distance no longer than
/// any upward path to it, and every such node lies on the chain of `s`:
/// with the parents' traced paths, whose weights are the distances, the
/// walk finds shortest upward distances.
pub proof fn lemma_walk_distance_optimal(
    first_out: Seq<u32>,
    head: Seq<u32>,
    weight: Seq<u32>,
    tree: Seq<Option<u32>>,
    s: u32,
    dist: Seq<u32>,
    parents: Seq<(u32, u32)>,
    arcs: Seq<(u32, u32, u32)>,
    v: u32,
)
    requires
        upward_weighted(first_out, head, weight, first_out.len() - 1),
        chordal_upward(first_out, head),
        elimination_tree_of(first_out, head, tree),
        (s as int) < first_out.len() - 1,
        walk_state(
            first_out,
            head,
            weight,
            tree_chain(tree, s as int),
            tree_chain(tree, s as int).len() as int,
            s,
            dist,
            parents,
        ),
        arc_path(first_out, head, arcs, s, v),
    ensures
        tree_chain(tree, s as int).contains(v),
        dist[v as int] <= arcs_weight(weight, arcs),
    decreases arcs.len(),
{
    let chain = tree_chain(tree, s as int);
    lemma_tree_chain_shape(tree, s as int);
    if arcs.len() == 0 {
        assert(chain[0] == s);
    } else {
        let prefix = arcs.drop_last();
        let last = arcs.last();
        let u = last.0;
        assert(arc_of_node(first_out, arcs[arcs.len() - 1].0 as int, arcs[arcs.len() - 1].2 as int));
        assert(arc_path(first_out, head, prefix, s, u)) by {
            assert forall|i: int| 0 <= i < prefix.len() implies #[trigger] arc_of_node(first_out, prefix[i].0 as int, prefix[i].2 as int)
                && head[prefix[i].2 as int] == prefix[i].1 by {
                assert(prefix[i] == arcs[i]);
                assert(arc_of_node(first_out, arcs[i].0 as int, arcs[i].2 as int));
            }
            assert forall|i: int| 0 <= i < prefix.len() - 1 implies #[trigger] prefix[i].1 == prefix[i + 1].0 by {
                assert(arcs[i].1 == arcs[i + 1].0);
            }
            if prefix.len() > 0 {
                assert(arcs[arcs.len() - 2].1 == arcs[arcs.len() - 1].0);
            }
        }
        lemma_walk_distance_optimal(first_out, head, weight, tree, s, dist, parents, prefix, u);
        lemma_neighbour_on_chain(first_out, head, weight, tree, u as int, last.2 as int);
        lemma_chain_transitive(tree, s as int, u, v);
        let j = choose|j: int| 0 <= j < chain.len() && chain[j] == u;
        assert(arc_of_node(first_out, chain[j] as int, last.2 as int));
        assert(dist[head[last.2 as int] as int] <= dist[chain[j] as int] + weight[last.2 as int]);
    }
}

/// A finished walk's parents trace, for every node it reached, an upward
/// path from the source whose weight is the node's distance.
pub proof fn lemma_walk_traced_path(
    first_out: Seq<u32>,
    head: Seq<u32>,
    weight: Seq<u32>,
    chain: Seq<u32>,
    s: u32,
    dist: Seq<u32>,
    parents: Seq<(u32, u32)>,
    v: u32,
) -> (arcs: Seq<(u32, u32, u32)>)
    requires
        upward_weighted(first_out, head, weight, first_out.len() - 1),
        walk_state(first_out, head, weight, chain, chain.len() as int, s, dist, parents),
        (v as int) < first_out.len() - 1,
        dist[v as int] < INFINITY,
    ensures
        arc_path(first_out, head, arcs, s, v),
        arcs_weight(weight, arcs) == dist[v as int],
    decreases v,
{
    if v == s {
        let arcs = Seq::<(u32, u32, u32)>::empty();
        assert(arcs_weight(weight, arcs) == 0);
        arcs
    } else {
        assert(parent_ok(first_out, head, weight, chain.take(chain.len() as int), dist, parents, v as int));
        let (u, e) = parents[v as int];
        assert(arc_of_node(first_out, u as int, e as int));
        assert(u < head[e as int]);
        let prev = lemma_walk_traced_path(first_out, head, weight, chain, s, dist, parents, u);
        let arcs = prev.push((u, v, e));
        assert(arcs.drop_last() =~= prev);
        assert forall|i: int|
            0 <= i < arcs.len() implies #[trigger] arc_of_node(first_out, arcs[i].0 as int, arcs[i].2 as int) && head[arcs[i].2 as int]
                == arcs[i].1 by {
            if i < prev.len() {
                assert(arcs[i] == prev[i]);
                assert(arc_of_node(first_out, prev[i].0 as int, prev[i].2 as int));
            }
        }
        assert forall|i: int| 0 <= i < arcs.len() - 1 implies #[trigger] arcs[i].1 == arcs[i + 1].0 by {
            assert(arcs[i] == prev[i]);
            if i < prev.len() - 1 {
                assert(prev[i].1 == prev[i + 1].0);
                assert(arcs[i + 1] == prev[i + 1]);
            } else {
                assert(prev.last().1 == u);
            }
        }
        if prev.len() > 0 {
            assert(arcs[0] == prev[0]);
        }
        arcs
    }
}

/// A node on both chains that both walks reached is a meeting candidate,
/// with the sum of its two distances.
proof fn lemma_candidate_listed(fw_chain: Seq<u32>, bw_chain: Seq<u32>, fw: Seq<u32>, bw: Seq<u32>, v: u32)
    requires
        fw_chain.contains(v),
        bw_chain.contains(v),
        fw[v as int] < INFINITY,
        bw[v as int] < INFINITY,
    ensures
        meeting_candidates(fw_chain, bw_chain, fw, bw).contains((v, (fw[v as int] + bw[v as int]) as u32)),
    decreases fw_chain.len(),
{
    let rest = fw_chain.drop_last();
    let r = meeting_candidates(rest, bw_chain, fw, bw);
    let all = meeting_candidates(fw_chain, bw_chain, fw, bw);
    let x = (v, (fw[v as int] + bw[v as int]) as u32);
    if fw_chain.last() == v {
        assert(all == r.push(x));
        assert(all[all.len() - 1] == x);
    } else {
        let j = choose|j: int| 0 <= j < fw_chain.len() && fw_chain[j] == v;
        assert(j < fw_chain.len() - 1);
        assert(rest[j] == v);
        lemma_candidate_listed(rest, bw_chain, fw, bw, v);
        let k = choose|k: int| 0 <= k < r.len() && r[k] == x;
        if all.len() > r.len() {
            assert(all == r.push((fw_chain.last(), (fw[fw_chain.last() as int] + bw[fw_chain.last() as int]) as u32)));
            assert(all[k] == x);
        } else {
            assert(all == r);
        }
    }
}

/// `d` is the weight of the lightest up-down path from `s` to `t`: a path
/// up from `s` in the forward graph and one up from `t` in the backward
/// graph to a common node, each of weight below `INFINITY`. Every such pair
/// weighs at least `d`, and some pair weighs exactly `d`.
pub open spec fn shortest_up_down(
    fw_first_out: Seq<u32>,
    fw_head: Seq<u32>,
    fw_weight: Seq<u32>,
    bw_first_out: Seq<u32>,
    bw_head: Seq<u32>,
    bw_weight: Seq<u32>,
    s: u32,
    t: u32,
    d: int,
) -> bool {
    &&& forall|v: u32, up: Seq<(u32, u32, u32)>, down: Seq<(u32, u32, u32)>|
        #[trigger] arc_path(fw_first_out, fw_head, up, s, v) && #[trigger] arc_path(bw_first_out, bw_head, down, t, v)
            && arcs_weight(fw_weight, up) < INFINITY && arcs_weight(bw_weight, down) < INFINITY ==> d <= arcs_weight(fw_weight, up)
            + arcs_weight(bw_weight, down)
    &&& exists|v: u32, up: Seq<(u32, u32, u32)>, down: Seq<(u32, u32, u32)>|
        #[trigger] arc_path(fw_first_out, fw_head, up, s, v) && #[trigger] arc_path(bw_first_out, bw_head, down, t, v)
            && arcs_weight(fw_weight, up) < INFINITY && arcs_weight(bw_weight, down) < INFINITY && d == arcs_weight(fw_weight, up)
            + arcs_weight(bw_weight, down)
}

/// No up-down path from `s` to `t` has both halves below `INFINITY`.
pub open spec fn no_up_down_path(
    fw_first_out: Seq<u32>,
    fw_head: Seq<u32>,
    fw_weight: Seq<u32>,
    bw_first_out: Seq<u32>,
    bw_head: Seq<u32>,
    bw_weight: Seq<u32>,
    s: u32,
    t: u32,
) -> bool {
    forall|v: u32, up: Seq<(u32, u32, u32)>, down: Seq<(u32, u32, u32)>|
        #[trigger] arc_path(fw_first_out, fw_head, up, s, v) && #[trigger] arc_path(bw_first_out, bw_head, down, t, v) ==> !(
        arcs_weight(fw_weight, up) < INFINITY && arcs_weight(bw_weight, down) < INFINITY)
}

/// On chordal upward and downward graphs sharing their elimination tree,
/// the meeting candidates of two finished walks, sorted by distance, start
/// with the shortest up-down distance from `s` to `t`; when there is no
/// candidate, there is no up-down path of finite halves.
pub proof fn lemma_first_meeting_shortest(
    fw_first_out: Seq<u32>,
    fw_head: Seq<u32>,
    fw_weight: Seq<u32>,
    bw_first_out: Seq<u32>,
    bw_head: Seq<u32>,
    bw_weight: Seq<u32>,
    tree: Seq<Option<u32>>,
    s: u32,
    t: u32,
    fw_dist: Seq<u32>,
    fw_parents: Seq<(u32, u32)>,
    bw_dist: Seq<u32>,
    bw_parents: Seq<(u32, u32)>,
    cands: Seq<(u32, u32)>,
)
    requires
        upward_weighted(fw_first_out, fw_head, fw_weight, fw_first_out.len() - 1),
        upward_weighted(bw_first_out, bw_head, bw_weight, fw_first_out.len() - 1),
        chordal_upward(fw_first_out, fw_head),
        chordal_upward(bw_first_out, bw_head),
        elimination_tree_of(fw_first_out, fw_head, tree),
        elimination_tree_of(bw_first_out, bw_head, tree),
        (s as int) < fw_first_out.len() - 1,
        (t as int) < fw_first_out.len() - 1,
        walk_state(
            fw_first_out,
            fw_head,
            fw_weight,
            tree_chain(tree, s as int),
            tree_chain(tree, s as int).len() as int,
            s,
            fw_dist,
            fw_parents,
        ),
        walk_state(
            bw_first_out,
            bw_head,
            bw_weight,
            tree_chain(tree, t as int),
            tree_chain(tree, t as int).len() as int,
            t,
            bw_dist,
            bw_parents,
        ),
        cands.to_multiset() == meeting_candidates(tree_chain(tree, s as int), tree_chain(tree, t as int), fw_dist, bw_dist).to_multiset(),
        sorted_by_distance(cands),
    ensures
        cands.len() > 0 ==> shortest_up_down(fw_first_out, fw_head, fw_weight, bw_first_out, bw_head, bw_weight, s, t, cands[0].1 as int),
        cands.len() == 0 ==> no_up_down_path(fw_first_out, fw_head, fw_weight, bw_first_out, bw_head, bw_weight, s, t),
{
    let sc = tree_chain(tree, s as int);
    let tc = tree_chain(tree, t as int);
    let mc = meeting_candidates(sc, tc, fw_dist, bw_dist);
    assert forall|v: u32, up: Seq<(u32, u32, u32)>, down: Seq<(u32, u32, u32)>|
        #[trigger] arc_path(fw_first_out, fw_head, up, s, v) && #[trigger] arc_path(bw_first_out, bw_head, down, t, v)
            && arcs_weight(fw_weight, up) < INFINITY && arcs_weight(bw_weight, down) < INFINITY implies cands.len() > 0 && cands[0].1
        <= arcs_weight(fw_weight, up) + arcs_weight(bw_weight, down) by {
        lemma_walk_distance_optimal(fw_first_out, fw_head, fw_weight, tree, s, fw_dist, fw_parents, up, v);
        lemma_walk_distance_optimal(bw_first_out, bw_head, bw_weight, tree, t, bw_dist, bw_parents, down, v);
        lemma_candidate_listed(sc, tc, fw_dist, bw_dist, v);
        let x = (v, (fw_dist[v as int] + bw_dist[v as int]) as u32);
        vstd::seq_lib::to_multiset_contains(mc, x);
        vstd::seq_lib::to_multiset_contains(cands, x);
        let k = choose|k: int| 0 <= k < cands.len() && cands[k] == x;
        assert(cands[0].1 <= cands[k].1);
    }
    if cands.len() > 0 {
        let c0 = cands[0];
        assert(cands.contains(c0));
        vstd::seq_lib::to_multiset_contains(cands, c0);
        vstd::seq_lib::to_multiset_contains(mc, c0);
        lemma_meeting_candidates_facts(sc, tc, fw_dist, bw_dist);
        let k = choose|k: int| 0 <= k < mc.len() && mc[k] == c0;
        let v = c0.0;
        assert(fw_dist.len() == fw_first_out.len() - 1);
        lemma_tree_chain_shape(tree, s as int);
        let j = choose|j: int| 0 <= j < sc.len() && sc[j] == v;
        assert((v as int) < fw_first_out.len() - 1);
        let up = lemma_walk_traced_path(fw_first_out, fw_head, fw_weight, sc, s, fw_dist, fw_parents, v);
        let down = lemma_walk_traced_path(bw_first_out, bw_head, bw_weight, tc, t, bw_dist, bw_parents, v);
        assert(arc_path(fw_first_out, fw_head, up, s, v) && arc_path(bw_first_out, bw_head, down, t, v));
    }
}

/// A fresh walk from `s` over the whole chain of `s`: the chain, the
/// distances and the parents. Nodes the walk never reached keep the
/// parent `(n, m)`.
pub fn elimination_tree_walk(graph: &BorrowedGraph, tree: &Vec<Option<u32>>, s: u32) -> (res: (Vec<u32>, Vec<u32>, Vec<(u32, u32)>))
    requires
        upward_weighted(graph.first_out@, graph.head@, graph.weight@, graph.first_out@.len() - 1),
        graph.first_out@.len() - 1 <= u32::MAX,
        tree_points_up(tree@, graph.first_out@.len() - 1),
        (s as int) < tree@.len(),
    ensures
        res.0@ == tree_chain(tree@, s as int),
        walk_state(graph.first_out@, graph.head@, graph.weight@, res.0@, res.0@.len() as int, s, res.1@, res.2@),
        res.1@ == walk_dist(graph.first_out@, graph.head@, graph.weight@, tree@, s),
        forall|v: int|
            0 <= v < res.1@.len() && #[trigger] res.1@[v] == INFINITY ==> res.2@[v] == (tree@.len() as u32, graph.head@.len() as u32),
{
    let n = tree.len();
    let m = graph.head.len();
    let chain = chain_of(tree, s);
    proof {
        lemma_tree_chain_shape(tree@, s as int);
    }
    let mut dist: Vec<u32> = Vec::new();
    let mut parents: Vec<(u32, u32)> = Vec::new();
    let mut i: usize = 0;
    while i < n
        invariant
            n == tree@.len(),
            i <= n,
            n <= u32::MAX,
            m <= u32::MAX,
            dist@.len() == i,
            parents@.len() == i,
            forall|v: int| 0 <= v < i ==> #[trigger] dist@[v] == if v == s { 0 } else { INFINITY },
            forall|v: int| 0 <= v < i ==> #[trigger] parents@[v] == (n as u32, m as u32),
        decreases n - i,
    {
        dist.push(if i == s as usize { 0 } else { INFINITY });
        parents.push((n as u32, m as u32));
        i = i + 1;
    }
    walk_chain(graph.first_out, graph.head, graph.weight, &chain, &mut dist, &mut parents);
    proof {
        let c = tree_chain(tree@, s as int);
        assert(walk_state(graph.first_out@, graph.head@, graph.weight@, c, c.len() as int, s, dist@, parents@));
        assert(walk_leaves(graph.first_out@, graph.head@, graph.weight@, tree@, s, dist@));
        let d = walk_dist(graph.first_out@, graph.head@, graph.weight@, tree@, s);
        assert(walk_leaves(graph.first_out@, graph.head@, graph.weight@, tree@, s, d));
        let p = choose|p: Seq<(u32, u32)>| walk_state(graph.first_out@, graph.head@, graph.weight@, c, c.len() as int, s, d, p);
        lemma_walk_distances_unique(graph.first_out@, graph.head@, graph.weight@, c, s, dist@, parents@, d, p);
    }
    (chain, dist, parents)
}

/// Whether the graph is a weighted upward graph on `n` nodes.
pub fn is_upward_weighted(graph: &BorrowedGraph, n: usize) -> (b: bool)
    ensures
        b == upward_weighted(graph.first_out@, graph.head@, graph.weight@, n as int),
{
    let first_out = graph.first_out;
    let head = graph.head;
    if first_out.len() == 0 || first_out.len() - 1 != n || graph.weight.len() != head.len() || head.len() > u32::MAX as usize {
        return false;
    }
    if first_out[n] as usize != head.len() || !is_monotone(first_out) {
        return false;
    }
    let mut u: usize = 0;
    while u < n
        invariant
            first_out@.len() == n + 1,
            first_out == graph.first_out,
            head == graph.head,
            graph.weight@.len() == head@.len(),
            head@.len() <= u32::MAX,
            csr_wf(first_out@, head@.len() as int),
            u <= n,
            forall|x: int, e: int| 0 <= x < u && #[trigger] arc_of_node(first_out@, x, e) ==> x < head@[e] < n,
        decreases n - u,
    {
        let start = first_out[u];
        let end = first_out[u + 1];
        proof {
            assert(first_out@[u as int] <= first_out@[u + 1]);
            assert(first_out@[u + 1] <= first_out@[n as int]);
        }
        let mut e: u32 = start;
        while e < end
            invariant
                first_out@.len() == n + 1,
                first_out == graph.first_out,
                head == graph.head,
                graph.weight@.len() == head@.len(),
                head@.len() <= u32::MAX,
                csr_wf(first_out@, head@.len() as int),
                u < n,
                start == first_out@[u as int],
                end == first_out@[u + 1],
                start <= e <= end,
                end <= head@.len(),
                forall|x: int, a: int| 0 <= x < u && #[trigger] arc_of_node(first_out@, x, a) ==> x < head@[a] < n,
                forall|a: int| start <= a < e ==> u < #[trigger] head@[a] < n,
            decreases end - e,
        {
            let h = head[e as usize];
            if !(u < h as usize && (h as usize) < n) {
                proof {
                    assert(arc_of_node(first_out@, u as int, e as int));
                    assert(!(u < head@[e as int] < n));
                    assert(!upward_weighted(first_out@, head@, graph.weight@, n as int));
                }
                return false;
            }
            e = e + 1;
        }
        proof {
            assert forall|x: int, a: int| 0 <= x < u + 1 && #[trigger] arc_of_node(first_out@, x, a) implies x < head@[a] < n by {
            }
        }
        u = u + 1;
    }
    true
}

/// Whether every parent in the tree lies above its child, on `n` nodes.
pub fn tree_is_upward(tree: &Vec<Option<u32>>, n: usize) -> (b: bool)
    ensures
        b == tree_points_up(tree@, n as int),
{
    if tree.len() != n {
        return false;
    }
    let mut x: usize = 0;
    while x < n
        invariant
            tree@.len() == n,
            x <= n,
            forall|y: int| 0 <= y < x && (#[trigger] tree@[y]).is_some() ==> y < tree@[y].unwrap() < n,
        decreases n - x,
    {
        match tree[x] {
            Some(p) => {
                if !(x < p as usize && (p as usize) < n) {
                    return false;
                }
            },
            None => {},
        }
        x = x + 1;
    }
    true
}

/// A customized CCH both walks can run on: its upward and downward graphs
/// are weighted upward graphs on the same (at most `u32::MAX`) nodes, and
/// its elimination tree points up.
pub open spec fn walkable<C: Customized>(c: &C) -> bool {
    let fwd = c.spec_forward_graph();
    let bwd = c.spec_backward_graph();
    let n = fwd.0.len() - 1;
    &&& n <= u32::MAX
    &&& upward_weighted(fwd.0, fwd.1, fwd.2, n)
    &&& upward_weighted(bwd.0, bwd.1, bwd.2, n)
    &&& tree_points_up(c.spec_cch().spec_cch_tree(), n)
}

/// The upward and the downward graph of `c` are chordal (`chordal_upward`)
/// and both have the elimination tree of its CCH, as the two graphs of a
/// customization of an undirected CCH built by contraction do.
pub open spec fn chordal_customization<C: Customized>(c: &C) -> bool {
    let fwd = c.spec_forward_graph();
    let bwd = c.spec_backward_graph();
    let tree = c.spec_cch().spec_cch_tree();
    &&& chordal_upward(fwd.0, fwd.1)
    &&& chordal_upward(bwd.0, bwd.1)
    &&& elimination_tree_of(fwd.0, fwd.1, tree)
    &&& elimination_tree_of(bwd.0, bwd.1, tree)
}

/// The first of the sorted meeting candidates is the shortest up-down
/// distance from `from` to `to` over the weights of `c`, and there is no
/// candidate only when no up-down path has finite halves.
pub open spec fn first_meeting_shortest<C: Customized>(c: &C, from: u32, to: u32, cands: Seq<(u32, u32)>) -> bool {
    let fwd = c.spec_forward_graph();
    let bwd = c.spec_backward_graph();
    &&& cands.len() > 0 ==> shortest_up_down(fwd.0, fwd.1, fwd.2, bwd.0, bwd.1, bwd.2, from, to, cands[0].1 as int)
    &&& cands.len() == 0 ==> no_up_down_path(fwd.0, fwd.1, fwd.2, bwd.0, bwd.1, bwd.2, from, to)
}

/// The number of nodes of a customized CCH.
pub open spec fn num_walk_nodes<C: Customized>(c: &C) -> int {
    c.spec_forward_graph().0.len() - 1
}

/// Whether both walks can run on `c`.
pub fn check_walkable<C: Customized>(c: &C) -> (b: bool)
    ensures
        b == walkable(c),
{
    let fwd = c.forward_graph();
    let bwd = c.backward_graph();
    if fwd.first_out.len() == 0 {
        return false;
    }
    let n = fwd.first_out.len() - 1;
    if n > u32::MAX as usize {
        return false;
    }
    is_upward_weighted(&fwd, n) && is_upward_weighted(&bwd, n) && tree_is_upward(c.cch().elimination_tree(), n)
}

} // verus!
