//! Compressed sparse row (CSR) graphs: `first_out[v]..first_out[v + 1]` is the
//! range of arc ids leaving node `v`, and `head[e]` is the target of arc `e`.

use vstd::prelude::*;

verus! {

/// The weight of an unreachable arc or an unreachable target (`u32::MAX / 2`,
/// so that the sum of two weights never overflows).
pub const INFINITY: u32 = 2147483647u32;

/// A copy of a vector of ids.
pub fn copy_ids(v: &Vec<u32>) -> (out: Vec<u32>)
    ensures
        out@ == v@,
{
    let mut out: Vec<u32> = Vec::new();
    let mut i: usize = 0;
    while i < v.len()
        invariant
            i <= v@.len(),
            out@ == v@.subrange(0, i as int),
        decreases v@.len() - i,
    {
        out.push(v[i]);
        i = i + 1;
    }
    out
}

/// Strictly increasing sequence (a sorted set without repetition).
pub open spec fn strictly_sorted(s: Seq<u32>) -> bool {
    forall|i: int, j: int| 0 <= i < j < s.len() ==> s[i] < s[j]
}


/// Two strictly increasing sequences with the same elements are equal.
pub proof fn lemma_sorted_unique(a: Seq<u32>, b: Seq<u32>)
    requires
        strictly_sorted(a),
        strictly_sorted(b),
        forall|x: u32| a.contains(x) <==> b.contains(x),
    ensures
        a == b,
    decreases a.len(),
{
    if a.len() == 0 {
        if b.len() > 0 {
            assert(b.contains(b[0]));
        }
        assert(a =~= b);
    } else {
        assert(a.contains(a[0]));
        let j = choose|j: int| 0 <= j < b.len() && b[j] == a[0];
        assert(b.contains(b[0]));
        let i = choose|i: int| 0 <= i < a.len() && a[i] == b[0];
        if i > 0 {
            assert(a[0] < a[i]);
        }
        if j > 0 {
            assert(b[0] < b[j]);
        }
        assert(a[0] == b[0]);
        let a1 = a.drop_first();
        let b1 = b.drop_first();
        assert forall|x: u32| a1.contains(x) <==> b1.contains(x) by {
            if a1.contains(x) {
                let k = choose|k: int| 0 <= k < a1.len() && a1[k] == x;
                assert(a[k + 1] == x && a[0] < a[k + 1]);
                assert(b.contains(x));
                let l = choose|l: int| 0 <= l < b.len() && b[l] == x;
                assert(l != 0);
                assert(b1[l - 1] == x);
            }
            if b1.contains(x) {
                let k = choose|k: int| 0 <= k < b1.len() && b1[k] == x;
                assert(b[k + 1] == x && b[0] < b[k + 1]);
                assert(a.contains(x));
                let l = choose|l: int| 0 <= l < a.len() && a[l] == x;
                assert(l != 0);
                assert(a1[l - 1] == x);
            }
        }
        lemma_sorted_unique(a1, b1);
        assert(a =~= seq![a[0]] + a1);
        assert(b =~= seq![b[0]] + b1);
    }
}

/// Offsets that never decrease: every node owns a (possibly empty) arc range.
pub open spec fn offsets_monotone(first_out: Seq<u32>) -> bool {
    forall|i: int, j: int| 0 <= i <= j < first_out.len() ==> first_out[i] <= first_out[j]
}

/// A CSR offset array over `num_arcs` arcs: non-empty, monotone, and its last
/// entry (the sentinel) is the number of arcs.
pub open spec fn csr_wf(first_out: Seq<u32>, num_arcs: int) -> bool {
    &&& first_out.len() >= 1
    &&& first_out[first_out.len() - 1] == num_arcs
    &&& offsets_monotone(first_out)
}

/// Arc `e` lies in the arc range of node `v`.
pub open spec fn arc_of_node(first_out: Seq<u32>, v: int, e: int) -> bool {
    &&& 0 <= v < first_out.len() - 1
    &&& first_out[v] <= e < first_out[v + 1]
}

/// Per-arc tail array of a CSR offset array: entry `k` is the node whose arc
/// range holds arc id `first_out[0] + k`. The result has one entry per arc
/// between the first and the last offset.
pub fn tails_from_first_out(first_out: &Vec<u32>) -> (tails: Vec<u32>)
    requires
        first_out@.len() >= 1,
        first_out@.len() - 1 <= u32::MAX + 1,
        offsets_monotone(first_out@),
    ensures
        tails@.len() == first_out@[first_out@.len() - 1] - first_out@[0],
        forall|k: int|
            0 <= k < tails@.len() ==> #[trigger] arc_of_node(
                first_out@,
                tails@[k] as int,
                k + first_out@[0],
            ),
{
    let n = first_out.len() - 1;
    let mut tails: Vec<u32> = Vec::new();
    let mut node: usize = 0;
    while node < n
        invariant
            n == first_out@.len() - 1,
            n <= u32::MAX + 1,
            node <= n,
            offsets_monotone(first_out@),
            tails@.len() == first_out@[node as int] - first_out@[0],
            forall|k: int|
                0 <= k < tails@.len() ==> #[trigger] arc_of_node(
                    first_out@,
                    tails@[k] as int,
                    k + first_out@[0],
                ),
        decreases n - node,
    {
        let start = first_out[node];
        let end = first_out[node + 1];
        let mut e: u32 = start;
        while e < end
            invariant
                n == first_out@.len() - 1,
                node < n,
                n <= u32::MAX + 1,
                offsets_monotone(first_out@),
                start == first_out@[node as int],
                end == first_out@[node + 1],
                start <= e <= end,
                tails@.len() == e - first_out@[0],
                forall|k: int|
                    0 <= k < tails@.len() ==> #[trigger] arc_of_node(
                        first_out@,
                        tails@[k] as int,
                        k + first_out@[0],
                    ),
            decreases end - e,
        {
            tails.push(node as u32);
            e = e + 1;
        }
        node = node + 1;
    }
    tails
}


/// Number of positions below `end` whose key is `k`.
pub open spec fn count_key(keys: Seq<u32>, k: int, end: int) -> nat
    decreases end,
{
    if end <= 0 {
        0
    } else {
        count_key(keys, k, end - 1) + if keys[end - 1] == k { 1nat } else { 0nat }
    }
}

proof fn lemma_count_key_monotone(keys: Seq<u32>, k: int, a: int, b: int)
    requires
        0 <= a <= b,
    ensures
        count_key(keys, k, a) <= count_key(keys, k, b),
    decreases b - a,
{
    if a < b {
        lemma_count_key_monotone(keys, k, a, b - 1);
    }
}

proof fn lemma_count_key_bound(keys: Seq<u32>, k: int, end: int)
    requires
        0 <= end,
    ensures
        count_key(keys, k, end) <= end,
    decreases end,
{
    if end > 0 {
        lemma_count_key_bound(keys, k, end - 1);
    }
}

/// `ids[offsets[k]..offsets[k + 1]]` lists, in increasing order, exactly the
/// positions of `keys` holding key `k`, for every key below `num_keys`.
#[verifier::opaque]
pub open spec fn groups_by_key(keys: Seq<u32>, num_keys: int, offsets: Seq<u32>, ids: Seq<u32>) -> bool {
    &&& offsets.len() == num_keys + 1
    &&& offsets[0] == 0
    &&& offsets_monotone(offsets)
    &&& offsets[num_keys] == ids.len()
    &&& forall|k: int, j: int|
        #![trigger ids[j], offsets[k]]
        0 <= k < num_keys && offsets[k] <= j < offsets[k + 1] ==> (ids[j] as int) < keys.len()
            && keys[ids[j] as int] == k
    &&& forall|k: int, i: int, j: int|
        #![trigger ids[i], ids[j], offsets[k]]
        0 <= k < num_keys && offsets[k] <= i < j < offsets[k + 1] ==> ids[i] < ids[j]
    &&& forall|e: int|
        0 <= e < keys.len() && (#[trigger] keys[e] as int) < num_keys ==> exists|j: int|
            offsets[keys[e] as int] <= j < offsets[keys[e] as int + 1] && ids[j] == e
}

/// The facts that `groups_by_key` packs, one by one.
pub proof fn lemma_groups_by_key_facts(keys: Seq<u32>, num_keys: int, offsets: Seq<u32>, ids: Seq<u32>)
    requires
        groups_by_key(keys, num_keys, offsets, ids),
    ensures
        offsets.len() == num_keys + 1,
        offsets[0] == 0,
        offsets_monotone(offsets),
        offsets[num_keys] == ids.len(),
        forall|k: int, j: int|
            #![trigger ids[j], offsets[k]]
            0 <= k < num_keys && offsets[k] <= j < offsets[k + 1] ==> (ids[j] as int) < keys.len()
                && keys[ids[j] as int] == k,
        forall|k: int, i: int, j: int|
            #![trigger ids[i], ids[j], offsets[k]]
            0 <= k < num_keys && offsets[k] <= i < j < offsets[k + 1] ==> ids[i] < ids[j],
        forall|e: int|
            0 <= e < keys.len() && (#[trigger] keys[e] as int) < num_keys ==> exists|j: int|
                offsets[keys[e] as int] <= j < offsets[keys[e] as int + 1] && ids[j] == e,
{
    reveal(groups_by_key);
}

/// Groups the positions of `keys` by key (a stable counting sort). Keys at or
/// above `num_keys` are skipped.
pub fn group_by_key(keys: &Vec<u32>, num_keys: usize) -> (res: (Vec<u32>, Vec<u32>))
    requires
        keys@.len() <= u32::MAX,
        num_keys < usize::MAX,
    ensures
        groups_by_key(keys@, num_keys as int, res.0@, res.1@),
        res.1@.len() == count_total(keys@, num_keys as int, keys@.len() as int),
{
    let m = keys.len();
    let mut counts: Vec<u32> = Vec::new();
    let mut i: usize = 0;
    while i < num_keys
        invariant
            i <= num_keys,
            counts@.len() == i,
            forall|k: int| 0 <= k < i ==> counts@[k] == 0,
        decreases num_keys - i,
    {
        counts.push(0);
        i = i + 1;
    }
    let mut e: usize = 0;
    while e < m
        invariant
            m == keys@.len(),
            m <= u32::MAX,
            e <= m,
            counts@.len() == num_keys,
            forall|k: int| 0 <= k < num_keys ==> #[trigger] counts@[k] == count_key(keys@, k, e as int),
        decreases m - e,
    {
        let k = keys[e];
        if (k as usize) < num_keys {
            proof {
                lemma_count_key_bound(keys@, k as int, e as int);
            }
            let c = counts[k as usize];
            counts.set(k as usize, c + 1);
        }
        e = e + 1;
    }
    let mut offsets: Vec<u32> = Vec::new();
    offsets.push(0);
    let mut total: u32 = 0;
    let mut k: usize = 0;
    let ghost mut partial: Seq<u32> = Seq::empty();
    while k < num_keys
        invariant
            m == keys@.len(),
            m <= u32::MAX,
            k <= num_keys,
            counts@.len() == num_keys,
            forall|q: int| 0 <= q < num_keys ==> #[trigger] counts@[q] == count_key(keys@, q, m as int),
            offsets@.len() == k + 1,
            offsets@[0] == 0,
            offsets@[k as int] == total,
            total == count_total(keys@, k as int, m as int),
            forall|q: int| 0 <= q < k ==> #[trigger] offsets@[q + 1] == offsets@[q] + counts@[q],
            offsets_monotone(offsets@),
        decreases num_keys - k,
    {
        proof {
            lemma_count_total_step(keys@, k as int, m as int);
            lemma_count_total_bound(keys@, (k + 1) as int, m as int);
        }
        total = total + counts[k];
        offsets.push(total);
        k = k + 1;
    }
    let mut ids: Vec<u32> = Vec::new();
    let mut j: u32 = 0;
    while j < total
        invariant
            ids@.len() == j,
            j <= total,
        decreases total - j,
    {
        ids.push(0);
        j = j + 1;
    }
    let mut cursor: Vec<u32> = Vec::new();
    let mut q: usize = 0;
    while q < num_keys
        invariant
            q <= num_keys,
            offsets@.len() == num_keys + 1,
            cursor@.len() == q,
            forall|r: int| 0 <= r < q ==> cursor@[r] == offsets@[r],
        decreases num_keys - q,
    {
        cursor.push(offsets[q]);
        q = q + 1;
    }
    let mut e: usize = 0;
    while e < m
        invariant
            m == keys@.len(),
            m <= u32::MAX,
            e <= m,
            counts@.len() == num_keys,
            forall|q: int| 0 <= q < num_keys ==> #[trigger] counts@[q] == count_key(keys@, q, m as int),
            offsets@.len() == num_keys + 1,
            offsets@[0] == 0,
            offsets@[num_keys as int] == total,
            forall|q: int| 0 <= q < num_keys ==> #[trigger] offsets@[q + 1] == offsets@[q] + counts@[q],
            offsets_monotone(offsets@),
            ids@.len() == total,
            cursor@.len() == num_keys,
            forall|q: int| 0 <= q < num_keys ==> #[trigger] cursor@[q] == offsets@[q] + count_key(keys@, q, e as int),
            forall|q: int| 0 <= q < num_keys ==> #[trigger] cursor@[q] <= offsets@[q + 1],
            forall|r: int, p: int|
                #![trigger ids@[p], cursor@[r]]
                0 <= r < num_keys && offsets@[r] <= p < cursor@[r] ==> (ids@[p] as int) < e && keys@[ids@[p] as int] == r,
            forall|r: int, a: int, b: int|
                #![trigger ids@[a], ids@[b], cursor@[r]]
                0 <= r < num_keys && offsets@[r] <= a < b < cursor@[r] ==> ids@[a] < ids@[b],
            forall|f: int|
                0 <= f < e && (#[trigger] keys@[f] as int) < num_keys ==> exists|p: int|
                    offsets@[keys@[f] as int] <= p < cursor@[keys@[f] as int] && ids@[p] == f,
        decreases m - e,
    {
        let key = keys[e];
        if (key as usize) < num_keys {
            let kk = key as usize;
            proof {
                lemma_count_key_monotone(keys@, kk as int, e as int + 1, m as int);
                assert(offsets@[kk as int] <= offsets@[num_keys as int]);
                assert(offsets_monotone(offsets@));
                assert(offsets@[kk + 1] <= offsets@[num_keys as int]);
            }
            let pos = cursor[kk];
            let ghost old_ids = ids@;
            let ghost old_cursor = cursor@;
            ids.set(pos as usize, e as u32);
            cursor.set(kk, pos + 1);
            proof {
                assert forall|q: int| 0 <= q < num_keys implies #[trigger] cursor@[q] <= offsets@[q + 1] by {
                    lemma_count_key_monotone(keys@, q, e as int + 1, m as int);
                }
                assert forall|r: int, p: int|
                    #![trigger old_cursor[r], old_ids[p]]
                    0 <= r < num_keys && r != kk && offsets@[r] <= p < old_cursor[r] implies p != pos by {
                    if r < kk {
                        assert(offsets@[r + 1] <= offsets@[kk as int]);
                    } else {
                        assert(offsets@[kk + 1] <= offsets@[r]);
                    }
                }
                assert forall|r: int, p: int|
                    #![trigger ids@[p], cursor@[r]]
                    0 <= r < num_keys && offsets@[r] <= p < cursor@[r] implies (ids@[p] as int) < e + 1 && keys@[ids@[p] as int] == r by {
                    if p != pos {
                        assert(old_ids[p] == ids@[p]);
                    }
                }
                assert forall|r: int, a: int, b: int|
                    #![trigger ids@[a], ids@[b], cursor@[r]]
                    0 <= r < num_keys && offsets@[r] <= a < b < cursor@[r] implies ids@[a] < ids@[b] by {
                    if r == kk {
                        if b == pos {
                            assert(old_ids[a] < e);
                        } else {
                            assert(old_ids[a] < old_ids[b]);
                        }
                    } else {
                        assert(a != pos && b != pos);
                        assert(old_ids[a] < old_ids[b]);
                    }
                }
                assert forall|f: int|
                    0 <= f < e + 1 && (#[trigger] keys@[f] as int) < num_keys implies exists|p: int|
                        offsets@[keys@[f] as int] <= p < cursor@[keys@[f] as int] && ids@[p] == f by {
                    if f == e {
                        assert(ids@[pos as int] == f);
                    } else {
                        let p = choose|p: int| offsets@[keys@[f] as int] <= p < old_cursor[keys@[f] as int] && old_ids[p] == f;
                        assert(p != pos) by {
                            if keys@[f] != kk {
                            }
                        }
                        assert(ids@[p] == f);
                    }
                }
            }
        }
        e = e + 1;
    }
    proof {
        reveal(groups_by_key);
        assert forall|r: int| 0 <= r < num_keys implies cursor@[r] == offsets@[r + 1] by {}
        assert forall|k: int, j: int|
            #![trigger ids@[j], offsets@[k]]
            0 <= k < num_keys && offsets@[k] <= j < offsets@[k + 1] implies (ids@[j] as int) < keys@.len()
                && keys@[ids@[j] as int] == k by {
            assert(cursor@[k] == offsets@[k + 1]);
        }
        assert forall|k: int, i: int, j: int|
            #![trigger ids@[i], ids@[j], offsets@[k]]
            0 <= k < num_keys && offsets@[k] <= i < j < offsets@[k + 1] implies ids@[i] < ids@[j] by {
            assert(cursor@[k] == offsets@[k + 1]);
        }
    }
    (offsets, ids)
}

/// Sum over keys below `k` of the number of positions below `end` holding
/// that key.
pub open spec fn count_total(keys: Seq<u32>, k: int, end: int) -> nat
    decreases k,
{
    if k <= 0 {
        0
    } else {
        count_total(keys, k - 1, end) + count_key(keys, k - 1, end)
    }
}

proof fn lemma_count_total_step(keys: Seq<u32>, k: int, end: int)
    requires
        0 <= k,
    ensures
        count_total(keys, k + 1, end) == count_total(keys, k, end) + count_key(keys, k, end),
{
}

/// Positions holding keys below `k` number at most `end`.
proof fn lemma_count_total_bound(keys: Seq<u32>, k: int, end: int)
    requires
        0 <= k,
        0 <= end,
    ensures
        count_total(keys, k, end) <= end,
    decreases end,
{
    if end > 0 {
        lemma_count_total_bound(keys, k, end - 1);
        lemma_count_total_drop(keys, k, end);
    } else {
        lemma_count_total_zero(keys, k);
    }
}

/// When every key is below `k`, the positions holding keys below `k` are all
/// positions.
pub proof fn lemma_count_total_all(keys: Seq<u32>, k: int, end: int)
    requires
        0 <= k,
        0 <= end <= keys.len(),
        forall|e: int| 0 <= e < end ==> (#[trigger] keys[e] as int) < k,
    ensures
        count_total(keys, k, end) == end,
    decreases end,
{
    if end > 0 {
        lemma_count_total_all(keys, k, end - 1);
        lemma_count_total_drop(keys, k, end);
    } else {
        lemma_count_total_zero(keys, k);
    }
}

proof fn lemma_count_total_zero(keys: Seq<u32>, k: int)
    requires
        0 <= k,
    ensures
        count_total(keys, k, 0) == 0,
    decreases k,
{
    if k > 0 {
        lemma_count_total_zero(keys, k - 1);
    }
}

proof fn lemma_count_total_drop(keys: Seq<u32>, k: int, end: int)
    requires
        0 <= k,
        0 < end,
    ensures
        count_total(keys, k, end) <= count_total(keys, k, end - 1) + 1,
        count_total(keys, k, end) == count_total(keys, k, end - 1) + if 0 <= keys[end - 1] < k { 1int } else { 0int },
    decreases k,
{
    if k > 0 {
        lemma_count_total_drop(keys, k - 1, end);
    }
}


/// `s` lists, in increasing order, exactly the arcs of node `u` whose head is
/// `v`.
pub open spec fn is_arc_set(first_out: Seq<u32>, head: Seq<u32>, u: int, v: int, s: Seq<u32>) -> bool {
    &&& strictly_sorted(s)
    &&& forall|k: int| 0 <= k < s.len() ==> arc_of_node(first_out, u, #[trigger] s[k] as int) && head[s[k] as int] == v
    &&& forall|e: int| #[trigger] arc_of_node(first_out, u, e) && head[e] == v ==> s.contains(e as u32)
}

/// All arc ids from `u` to `v`, in increasing order.
pub fn arcs_between(first_out: &Vec<u32>, head: &Vec<u32>, u: u32, v: u32) -> (arcs: Vec<u32>)
    requires
        csr_wf(first_out@, head@.len() as int),
        (u as int) < first_out@.len() - 1,
    ensures
        is_arc_set(first_out@, head@, u as int, v as int, arcs@),
{
    let n = first_out.len();
    let start = first_out[u as usize];
    let end = first_out[u as usize + 1];
    proof {
        assert(first_out@[u + 1] <= first_out@[n - 1]);
    }
    let mut arcs: Vec<u32> = Vec::new();
    let mut e = start;
    while e < end
        invariant
            csr_wf(first_out@, head@.len() as int),
            (u as int) < first_out@.len() - 1,
            start == first_out@[u as int],
            end == first_out@[u + 1],
            end <= head@.len(),
            start <= e <= end,
            strictly_sorted(arcs@),
            forall|k: int| 0 <= k < arcs@.len() ==> start <= #[trigger] arcs@[k] < e && head@[arcs@[k] as int] == v,
            forall|f: int| #[trigger] arc_of_node(first_out@, u as int, f) && f < e && head@[f] == v ==> arcs@.contains(f as u32),
        decreases end - e,
    {
        if head[e as usize] == v {
            let ghost before = arcs@;
            arcs.push(e);
            proof {
                assert forall|f: int| #[trigger] arc_of_node(first_out@, u as int, f) && f < e + 1 && head@[f] == v implies arcs@.contains(f as u32) by {
                    if f == e {
                        assert(arcs@[arcs@.len() - 1] == e);
                    } else {
                        let k = choose|k: int| 0 <= k < before.len() && before[k] == f as u32;
                        assert(arcs@[k] == f as u32);
                    }
                }
            }
        }
        e = e + 1;
    }
    arcs
}


proof fn lemma_adjacent_monotone(s: Seq<u32>, i: int, j: int)
    requires
        forall|k: int| 0 <= k < s.len() - 1 ==> #[trigger] s[k] <= s[k + 1],
        0 <= i <= j < s.len(),
    ensures
        s[i] <= s[j],
    decreases j - i,
{
    if i < j {
        lemma_adjacent_monotone(s, i, j - 1);
        assert(s[j - 1] <= s[j]);
    }
}

/// The outgoing arcs of `node` as `(arc id, tail, head)`, in arc order.
pub fn edges_incident_to(first_out: &Vec<u32>, head: &Vec<u32>, node: u32) -> (arcs: Vec<(u32, u32, u32)>)
    requires
        csr_wf(first_out@, head@.len() as int),
        (node as int) + 1 < first_out@.len(),
    ensures
        arcs@.len() == first_out@[node as int + 1] - first_out@[node as int],
        forall|i: int|
            0 <= i < arcs@.len() ==> #[trigger] arcs@[i] == (
                (first_out@[node as int] + i) as u32,
                node,
                head@[first_out@[node as int] + i],
            ),
{
    let _len = first_out.len();
    let start = first_out[node as usize];
    let end = first_out[node as usize + 1];
    proof {
        assert(first_out@[node as int] <= first_out@[node as int + 1]);
        assert(first_out@[node as int + 1] <= first_out@[first_out@.len() - 1]);
    }
    let mut arcs: Vec<(u32, u32, u32)> = Vec::new();
    let mut e: u32 = start;
    while e < end
        invariant
            (node as int) + 1 < first_out@.len(),
            start == first_out@[node as int],
            end == first_out@[node as int + 1],
            start <= e <= end,
            end <= head@.len(),
            arcs@.len() == e - start,
            forall|i: int|
                0 <= i < arcs@.len() ==> #[trigger] arcs@[i] == ((start + i) as u32, node, head@[start + i]),
        decreases end - e,
    {
        arcs.push((e, node, head[e as usize]));
        e = e + 1;
    }
    arcs
}

/// Whether the offsets never decrease.
pub fn is_monotone(s: &Vec<u32>) -> (res: bool)
    ensures
        res == offsets_monotone(s@),
{
    let n = s.len();
    if n == 0 {
        return true;
    }
    let mut k: usize = 0;
    while k + 1 < n
        invariant
            n == s@.len(),
            n >= 1,
            k + 1 <= n,
            forall|q: int| 0 <= q < k ==> #[trigger] s@[q] <= s@[q + 1],
        decreases n - k,
    {
        if s[k] > s[k + 1] {
            return false;
        }
        k = k + 1;
    }
    proof {
        assert forall|i: int, j: int| 0 <= i <= j < s@.len() implies s@[i] <= s@[j] by {
            lemma_adjacent_monotone(s@, i, j);
        }
    }
    true
}

} // verus!
