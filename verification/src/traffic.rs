//! Traffic overlay decisions: the congestion status of a road segment from
//! its baseline and current travel times, the major-road filter read from
//! the road arc manifest, and the per-segment weights the overlay colours.

use vstd::prelude::*;
use crate::graph::INFINITY;

verus! {

/// Congestion status of a road segment.
#[derive(Clone, Copy, Debug, PartialEq, Eq, Structural)]
pub enum TrafficStatus {
    Green,
    Yellow,
    Red,
}

impl TrafficStatus {
    /// The status name clients see.
    pub fn name(&self) -> (s: &'static str)
        ensures
            *self == TrafficStatus::Green ==> s@ == "green"@,
            *self == TrafficStatus::Yellow ==> s@ == "yellow"@,
            *self == TrafficStatus::Red ==> s@ == "red"@,
    {
        match self {
            TrafficStatus::Green => "green",
            TrafficStatus::Yellow => "yellow",
            TrafficStatus::Red => "red",
        }
    }

    /// The colour the overlay draws the status in.
    pub fn color(&self) -> (s: &'static str)
        ensures
            *self == TrafficStatus::Green ==> s@ == "#34c26b"@,
            *self == TrafficStatus::Yellow ==> s@ == "#f3c63f"@,
            *self == TrafficStatus::Red ==> s@ == "#df5a43"@,
    {
        match self {
            TrafficStatus::Green => "#34c26b",
            TrafficStatus::Yellow => "#f3c63f",
            TrafficStatus::Red => "#df5a43",
        }
    }
}

/// The status of a segment: red when it is closed (weight at or above
/// `INFINITY`), green when it has no baseline cost, else by the ratio of
/// current to baseline time: green up to 1.15, yellow up to 1.60, red above.
pub open spec fn status_of(baseline_weight: u32, current_weight: u32) -> TrafficStatus {
    if current_weight >= INFINITY {
        TrafficStatus::Red
    } else if baseline_weight == 0 {
        TrafficStatus::Green
    } else if 100 * current_weight <= 115 * baseline_weight {
        TrafficStatus::Green
    } else if 100 * current_weight <= 160 * baseline_weight {
        TrafficStatus::Yellow
    } else {
        TrafficStatus::Red
    }
}

/// Classifies a segment by its baseline and current travel time. The ratio
/// thresholds are compared exactly, in integers.
pub fn classify_status(baseline_weight: u32, current_weight: u32) -> (status: TrafficStatus)
    ensures
        status == status_of(baseline_weight, current_weight),
{
    if current_weight >= INFINITY {
        return TrafficStatus::Red;
    }
    if baseline_weight == 0 {
        return TrafficStatus::Green;
    }
    let current = current_weight as u64 * 100;
    let baseline = baseline_weight as u64;
    if current <= baseline * 115 {
        TrafficStatus::Green
    } else if current <= baseline * 160 {
        TrafficStatus::Yellow
    } else {
        TrafficStatus::Red
    }
}

/// The road class of an OSM highway tag: the tag without a trailing
/// `_link`.
pub open spec fn road_class(highway: Seq<char>) -> Seq<char> {
    if highway.len() >= 5 && highway.subrange(highway.len() - 5, highway.len() as int) == "_link"@ {
        highway.subrange(0, highway.len() - 5)
    } else {
        highway
    }
}

/// Tertiary roads and everything above them.
pub open spec fn is_major_class(class: Seq<char>) -> bool {
    ||| class == "motorway"@
    ||| class == "motorway_junction"@
    ||| class == "trunk"@
    ||| class == "primary"@
    ||| class == "secondary"@
    ||| class == "tertiary"@
}

/// Whether `s` holds `lit` at positions `from..from + lit.len()`.
fn chars_match(s: &str, from: usize, lit: &str) -> (b: bool)
    requires
        from + lit@.len() <= s@.len(),
        s@.len() <= usize::MAX,
    ensures
        b == (s@.subrange(from as int, from + lit@.len()) == lit@),
{
    let m = lit.unicode_len();
    let mut k: usize = 0;
    while k < m
        invariant
            m == lit@.len(),
            from + m <= s@.len(),
            s@.len() <= usize::MAX,
            k <= m,
            forall|j: int| 0 <= j < k ==> s@[from + j] == lit@[j],
        decreases m - k,
    {
        if s.get_char(from + k) != lit.get_char(k) {
            proof {
                assert(s@.subrange(from as int, from + m)[k as int] != lit@[k as int]);
            }
            return false;
        }
        k = k + 1;
    }
    proof {
        assert(s@.subrange(from as int, from + m) =~= lit@);
    }
    true
}

/// Whether the first `end` characters of `s` are exactly `lit`.
fn prefix_is(s: &str, end: usize, lit: &str) -> (b: bool)
    requires
        end <= s@.len(),
        s@.len() <= usize::MAX,
    ensures
        b == (s@.subrange(0, end as int) == lit@),
{
    if lit.unicode_len() != end {
        return false;
    }
    let r = chars_match(s, 0, lit);
    proof {
        assert(s@.subrange(0, end as int) == s@.subrange(0, 0 + lit@.len() as int));
    }
    r
}

/// Whether an OSM highway tag is a tertiary road or above (links included).
pub fn is_tertiary_or_above(highway: &str) -> (b: bool)
    ensures
        b == is_major_class(road_class(highway@)),
{
    let n = highway.unicode_len();
    proof {
        reveal_strlit("_link");
    }
    let mut end = n;
    if n >= 5 && chars_match(highway, n - 5, "_link") {
        end = n - 5;
    }
    proof {
        assert(highway@.subrange(0, n as int) =~= highway@);
        assert(road_class(highway@) == highway@.subrange(0, end as int));
    }
    prefix_is(highway, end, "motorway") || prefix_is(highway, end, "motorway_junction") || prefix_is(highway, end, "trunk")
        || prefix_is(highway, end, "primary") || prefix_is(highway, end, "secondary") || prefix_is(highway, end, "tertiary")
}

/// The cheapest weight among the listed turns that have one, starting from
/// `INFINITY`; turns without a weight are skipped.
pub open spec fn min_known(edges: Seq<u32>, weights: Seq<u32>, k: int) -> u32
    decreases k,
{
    if k <= 0 {
        INFINITY
    } else {
        let best = min_known(edges, weights, k - 1);
        if (edges[k - 1] as int) < weights.len() && weights[edges[k - 1] as int] < best {
            weights[edges[k - 1] as int]
        } else {
            best
        }
    }
}

/// The overlay weight of an original arc on a line-graph server: its
/// baseline when no turn leads into it, else the cheapest known turn into
/// it.
pub open spec fn overlay_pseudo_weight(
    arc_idx: int,
    fallback_weight: u32,
    weights: Seq<u32>,
    incoming_offsets: Seq<u32>,
    incoming_edges: Seq<u32>,
) -> u32 {
    let turns = incoming_edges.subrange(incoming_offsets[arc_idx] as int, incoming_offsets[arc_idx + 1] as int);
    if incoming_offsets[arc_idx] >= incoming_offsets[arc_idx + 1] {
        fallback_weight
    } else {
        min_known(turns, weights, turns.len() as int)
    }
}

/// The overlay weight of an original arc under the active turn weights.
pub fn pseudo_normal_arc_weight(
    arc_idx: usize,
    fallback_weight: u32,
    weights: &Vec<u32>,
    incoming_offsets: &Vec<u32>,
    incoming_edges: &Vec<u32>,
) -> (w: u32)
    requires
        arc_idx + 1 < incoming_offsets@.len(),
        incoming_offsets@[arc_idx as int] >= incoming_offsets@[arc_idx + 1] || incoming_offsets@[arc_idx + 1] <= incoming_edges@.len(),
    ensures
        w == overlay_pseudo_weight(arc_idx as int, fallback_weight, weights@, incoming_offsets@, incoming_edges@),
{
    let len = incoming_offsets.len();
    let start = incoming_offsets[arc_idx];
    let end = incoming_offsets[arc_idx + 1];
    if start >= end {
        return fallback_weight;
    }
    let ghost turns = incoming_edges@.subrange(start as int, end as int);
    let mut best: u32 = INFINITY;
    let mut k = start;
    while k < end
        invariant
            start <= k <= end,
            end <= incoming_edges@.len(),
            turns == incoming_edges@.subrange(start as int, end as int),
            min_known(turns, weights@, k - start) == best,
        decreases end - k,
    {
        let edge = incoming_edges[k as usize];
        proof {
            assert(turns[k - start] == edge);
        }
        if (edge as usize) < weights.len() {
            let candidate = weights[edge as usize];
            if candidate < best {
                best = candidate;
            }
        }
        k = k + 1;
    }
    proof {
        assert(turns.len() == end - start);
    }
    best
}

/// The overlay weight of an arc on a normal graph server: the active weight
/// when there is one for it, else its baseline.
pub fn normal_segment_weight(edge_idx: usize, baseline_weight: u32, current_weights: Option<&Vec<u32>>) -> (w: u32)
    ensures
        w == match current_weights {
            Some(ws) => if edge_idx < ws@.len() {
                ws@[edge_idx as int]
            } else {
                baseline_weight
            },
            None => baseline_weight,
        },
{
    match current_weights {
        Some(ws) => if edge_idx < ws.len() {
            ws[edge_idx]
        } else {
            baseline_weight
        },
        None => baseline_weight,
    }
}

/// One row of the road arc manifest: an arc id and its OSM highway tag,
/// either of which may be null.
pub struct ManifestRow {
    pub arc_id: Option<u32>,
    pub highway: Option<String>,
}

/// Why the road arc manifest was rejected.
#[derive(Clone, Copy, Debug, PartialEq, Eq, Structural)]
pub enum ManifestError {
    /// A row (numbered within its batch) has a null arc id or highway tag.
    NullField { row: usize },
    /// An arc id is not below the expected arc count.
    ArcOutOfRange { arc_id: u32, expected_arc_count: usize },
    /// An arc id occurs twice.
    DuplicateArc { arc_id: u32 },
    /// No row names this arc id.
    MissingArc { missing_arc: usize },
}

/// Reading the manifest row by row: `Ok((flags, seen))` after the rows read
/// so far, or the first problem.
pub open spec fn manifest_scan(rows: Seq<(Option<u32>, Option<Seq<char>>, usize)>, n: int, k: int) -> Result<(Seq<bool>, Seq<bool>), ManifestError>
    decreases k,
{
    if k <= 0 {
        Ok((Seq::new(n as nat, |i: int| false), Seq::new(n as nat, |i: int| false)))
    } else {
        match manifest_scan(rows, n, k - 1) {
            Err(e) => Err(e),
            Ok((flags, seen)) => {
                let (arc, highway, row) = rows[k - 1];
                if arc is None || highway is None {
                    Err(ManifestError::NullField { row })
                } else if arc.unwrap() >= n {
                    Err(ManifestError::ArcOutOfRange { arc_id: arc.unwrap(), expected_arc_count: n as usize })
                } else if seen[arc.unwrap() as int] {
                    Err(ManifestError::DuplicateArc { arc_id: arc.unwrap() })
                } else {
                    Ok(
                        (
                            flags.update(arc.unwrap() as int, is_major_class(road_class(highway.unwrap()))),
                            seen.update(arc.unwrap() as int, true),
                        ),
                    )
                }
            },
        }
    }
}

/// The rows of all batches in order, each with its position in its batch.
pub open spec fn manifest_rows(batches: Seq<Vec<ManifestRow>>) -> Seq<(Option<u32>, Option<Seq<char>>, usize)>
    decreases batches.len(),
{
    if batches.len() == 0 {
        Seq::empty()
    } else {
        manifest_rows(batches.drop_last()) + Seq::new(
            batches.last()@.len(),
            |r: int|
                (
                    batches.last()@[r].arc_id,
                    match batches.last()@[r].highway {
                        Some(h) => Some(h@),
                        None => None,
                    },
                    r as usize,
                ),
        )
    }
}

/// The first position holding `false`, if any.
pub open spec fn first_false(s: Seq<bool>) -> Option<int> {
    if exists|i: int| 0 <= i < s.len() && !s[i] {
        Some(choose|i: int| 0 <= i < s.len() && !s[i] && forall|j: int| 0 <= j < i ==> s[j])
    } else {
        None
    }
}

/// The verdict of reading a manifest: the per-arc major-road flags, or the
/// first problem met (a bad row, then an arc no row names).
pub open spec fn manifest_flags(batches: Seq<Vec<ManifestRow>>, n: int) -> Result<Seq<bool>, ManifestError> {
    let rows = manifest_rows(batches);
    match manifest_scan(rows, n, rows.len() as int) {
        Err(e) => Err(e),
        Ok((flags, seen)) => match first_false(seen) {
            Some(i) => Err(ManifestError::MissingArc { missing_arc: i as usize }),
            None => Ok(flags),
        },
    }
}

proof fn lemma_manifest_scan_err_stays(rows: Seq<(Option<u32>, Option<Seq<char>>, usize)>, n: int, a: int, b: int)
    requires
        0 <= a <= b,
        manifest_scan(rows, n, a) is Err,
    ensures
        manifest_scan(rows, n, b) == manifest_scan(rows, n, a),
    decreases b - a,
{
    if b > a {
        lemma_manifest_scan_err_stays(rows, n, a, b - 1);
    }
}

proof fn lemma_manifest_rows_push(batches: Seq<Vec<ManifestRow>>, b: Vec<ManifestRow>)
    ensures
        manifest_rows(batches.push(b)) == manifest_rows(batches) + Seq::new(
            b@.len(),
            |r: int|
                (
                    b@[r].arc_id,
                    match b@[r].highway {
                        Some(h) => Some(h@),
                        None => None,
                    },
                    r as usize,
                ),
        ),
{
    assert(batches.push(b).drop_last() =~= batches);
}

/// Reads the major-road flag of every arc from the manifest batches. Every
/// arc below `expected_arc_count` must be named by exactly one row.
pub fn major_road_flags(batches: &Vec<Vec<ManifestRow>>, expected_arc_count: usize) -> (res: Result<Vec<bool>, ManifestError>)
    ensures
        match manifest_flags(batches@, expected_arc_count as int) {
            Ok(flags) => res is Ok && res->Ok_0@ == flags,
            Err(e) => res == Err::<Vec<bool>, ManifestError>(e),
        },
{
    let n = expected_arc_count;
    let mut flags: Vec<bool> = Vec::new();
    let mut seen: Vec<bool> = Vec::new();
    let mut i: usize = 0;
    while i < n
        invariant
            i <= n,
            flags@ == Seq::new(i as nat, |j: int| false),
            seen@ == Seq::new(i as nat, |j: int| false),
        decreases n - i,
    {
        flags.push(false);
        seen.push(false);
        proof {
            assert(flags@ =~= Seq::new((i + 1) as nat, |j: int| false));
            assert(seen@ =~= Seq::new((i + 1) as nat, |j: int| false));
        }
        i = i + 1;
    }
    let ghost all_rows = manifest_rows(batches@);
    let mut b: usize = 0;
    let ghost mut done: int = 0;
    proof {
        assert(batches@.take(0) =~= Seq::<Vec<ManifestRow>>::empty());
        assert(manifest_rows(batches@.take(0)) =~= Seq::<(Option<u32>, Option<Seq<char>>, usize)>::empty());
    }
    while b < batches.len()
        invariant
            b <= batches@.len(),
            n == expected_arc_count,
            all_rows == manifest_rows(batches@),
            done == manifest_rows(batches@.take(b as int)).len(),
            manifest_rows(batches@.take(b as int)) == all_rows.take(done),
            0 <= done <= all_rows.len(),
            manifest_scan(all_rows, n as int, done) == Ok::<(Seq<bool>, Seq<bool>), ManifestError>((flags@, seen@)),
            flags@.len() == n,
            seen@.len() == n,
        decreases batches@.len() - b,
    {
        let batch = &batches[b];
        let ghost block = Seq::new(
            batch@.len(),
            |r: int|
                (
                    batch@[r].arc_id,
                    match batch@[r].highway {
                        Some(h) => Some(h@),
                        None => None,
                    },
                    r as usize,
                ),
        );
        proof {
            assert(batches@.take(b + 1) =~= batches@.take(b as int).push(batches@[b as int]));
            lemma_manifest_rows_push(batches@.take(b as int), batches@[b as int]);
            assert(manifest_rows(batches@.take(b + 1)) == all_rows.take(done) + block);
            if b + 1 < batches@.len() {
                assert(batches@ =~= batches@.take(b + 1) + batches@.skip(b + 1));
            }
            lemma_rows_prefix(batches@, b + 1);
            assert(all_rows.take(done + block.len()) =~= all_rows.take(done) + block);
            assert forall|j: int| 0 <= j < block.len() implies all_rows[done + j] == #[trigger] block[j] by {
                assert(all_rows.take(done + block.len())[done + j] == all_rows[done + j]);
                assert((all_rows.take(done) + block)[done + j] == block[j]);
            }
        }
        let mut r: usize = 0;
        while r < batch.len()
            invariant
                r <= batch@.len(),
                n == expected_arc_count,
                all_rows == manifest_rows(batches@),
                block.len() == batch@.len(),
                0 <= done,
                done + block.len() <= all_rows.len(),
                forall|j: int| 0 <= j < block.len() ==> all_rows[done + j] == #[trigger] block[j],
                block == Seq::new(
                    batch@.len(),
                    |r: int|
                        (
                            batch@[r].arc_id,
                            match batch@[r].highway {
                                Some(h) => Some(h@),
                                None => None,
                            },
                            r as usize,
                        ),
                ),
                manifest_scan(all_rows, n as int, done + r) == Ok::<(Seq<bool>, Seq<bool>), ManifestError>((flags@, seen@)),
                flags@.len() == n,
                seen@.len() == n,
            decreases batch@.len() - r,
        {
            let row = &batch[r];
            proof {
                assert(all_rows[done + r] == block[r as int]);
            }
            let arc = match row.arc_id {
                Some(a) => a,
                None => {
                    proof {
                        lemma_manifest_scan_err_stays(all_rows, n as int, done + r + 1, all_rows.len() as int);
                    }
                    return Err(ManifestError::NullField { row: r });
                },
            };
            let highway = match &row.highway {
                Some(h) => h,
                None => {
                    proof {
                        lemma_manifest_scan_err_stays(all_rows, n as int, done + r + 1, all_rows.len() as int);
                    }
                    return Err(ManifestError::NullField { row: r });
                },
            };
            if arc as usize >= n {
                proof {
                    lemma_manifest_scan_err_stays(all_rows, n as int, done + r + 1, all_rows.len() as int);
                }
                return Err(ManifestError::ArcOutOfRange { arc_id: arc, expected_arc_count: n });
            }
            if seen[arc as usize] {
                proof {
                    lemma_manifest_scan_err_stays(all_rows, n as int, done + r + 1, all_rows.len() as int);
                }
                return Err(ManifestError::DuplicateArc { arc_id: arc });
            }
            seen.set(arc as usize, true);
            let major = is_tertiary_or_above(highway.as_str());
            flags.set(arc as usize, major);
            r = r + 1;
        }
        proof {
            done = done + block.len();
        }
        b = b + 1;
    }
    proof {
        assert(batches@.take(batches@.len() as int) =~= batches@);
        assert(all_rows.take(done).len() == all_rows.len());
        assert(done == all_rows.len());
        assert(all_rows.take(done) =~= all_rows);
    }
    let mut a: usize = 0;
    while a < n
        invariant
            a <= n,
            n == expected_arc_count,
            all_rows == manifest_rows(batches@),
            manifest_scan(all_rows, n as int, all_rows.len() as int) == Ok::<(Seq<bool>, Seq<bool>), ManifestError>((flags@, seen@)),
            seen@.len() == n,
            forall|j: int| 0 <= j < a ==> seen@[j],
        decreases n - a,
    {
        if !seen[a] {
            proof {
                assert(first_false(seen@) == Some(a as int)) by {
                    let c = choose|i: int| 0 <= i < seen@.len() && !seen@[i] && forall|j: int| 0 <= j < i ==> seen@[j];
                    assert(0 <= a < seen@.len() && !seen@[a as int] && forall|j: int| 0 <= j < a ==> seen@[j]);
                    if c < a {
                        assert(seen@[c]);
                    }
                    if c > a {
                        assert(seen@[a as int]);
                    }
                }
            }
            return Err(ManifestError::MissingArc { missing_arc: a });
        }
        a = a + 1;
    }
    Ok(flags)
}

proof fn lemma_rows_prefix(batches: Seq<Vec<ManifestRow>>, k: int)
    requires
        0 <= k <= batches.len(),
    ensures
        manifest_rows(batches.take(k)) == manifest_rows(batches).take(manifest_rows(batches.take(k)).len() as int),
        manifest_rows(batches.take(k)).len() <= manifest_rows(batches).len(),
    decreases batches.len() - k,
{
    if k < batches.len() {
        lemma_rows_prefix(batches, k + 1);
        assert(batches.take(k + 1) =~= batches.take(k).push(batches[k]));
        lemma_manifest_rows_push(batches.take(k), batches[k]);
        let small = manifest_rows(batches.take(k));
        let big = manifest_rows(batches.take(k + 1));
        assert(big.take(small.len() as int) =~= small);
        assert(manifest_rows(batches).take(small.len() as int) =~= manifest_rows(batches).take(big.len() as int).take(small.len() as int));
    } else {
        assert(batches.take(k) =~= batches);
        assert(manifest_rows(batches).take(manifest_rows(batches).len() as int) =~= manifest_rows(batches));
    }
}

/// The major-road flags when the manifest could be read, else every arc
/// counted as major with the filter reported unsupported.
pub fn flags_or_default(loaded: Option<Vec<bool>>, expected_arc_count: usize) -> (res: (Vec<bool>, bool))
    ensures
        match loaded {
            Some(flags) => res.0@ == flags@ && res.1,
            None => res.0@ == Seq::new(expected_arc_count as nat, |i: int| true) && !res.1,
        },
{
    match loaded {
        Some(flags) => (flags, true),
        None => {
            let mut all: Vec<bool> = Vec::new();
            let mut i: usize = 0;
            while i < expected_arc_count
                invariant
                    i <= expected_arc_count,
                    all@ == Seq::new(i as nat, |j: int| true),
                decreases expected_arc_count - i,
            {
                all.push(true);
                proof {
                    assert(all@ =~= Seq::new((i + 1) as nat, |j: int| true));
                }
                i = i + 1;
            }
            (all, false)
        },
    }
}

/// Whether a segment is drawn: it lies in the view, and it is a major road
/// when only major roads were asked for and the filter is supported.
pub fn segment_visible(intersects: bool, major_only_requested: bool, filter_supported: bool, is_major: bool) -> (b: bool)
    ensures
        b == (intersects && !(major_only_requested && filter_supported && !is_major)),
{
    intersects && !(major_only_requested && filter_supported && !is_major)
}

/// What the overlay knows of a road segment besides its geometry: its
/// baseline travel time and whether it is a major road.
#[derive(Clone, Copy, Debug, PartialEq, Eq, Structural)]
pub struct SegmentInfo {
    pub baseline_weight: u32,
    pub is_tertiary_and_above: bool,
}

/// The traffic overlay of a server: one segment per arc of a normal graph,
/// or one per original arc of a line graph together with the turns into
/// every original arc.
pub enum TrafficOverlay {
    Normal { segments: Vec<SegmentInfo>, tertiary_filter_supported: bool },
    LineGraphPseudoNormal {
        segments: Vec<SegmentInfo>,
        incoming_offsets: Vec<u32>,
        incoming_edges: Vec<u32>,
        tertiary_filter_supported: bool,
    },
}

/// The segments of an overlay, in arc order.
pub open spec fn segments_of(o: &TrafficOverlay) -> Seq<SegmentInfo> {
    match o {
        TrafficOverlay::Normal { segments, .. } => segments@,
        TrafficOverlay::LineGraphPseudoNormal { segments, .. } => segments@,
    }
}

/// Whether the overlay could read the major-road flags.
pub open spec fn filter_supported(o: &TrafficOverlay) -> bool {
    match o {
        TrafficOverlay::Normal { tertiary_filter_supported, .. } => *tertiary_filter_supported,
        TrafficOverlay::LineGraphPseudoNormal { tertiary_filter_supported, .. } => *tertiary_filter_supported,
    }
}

/// The overlay's index structures fit its segments.
pub open spec fn overlay_wf(o: &TrafficOverlay) -> bool {
    match o {
        TrafficOverlay::Normal { .. } => true,
        TrafficOverlay::LineGraphPseudoNormal { segments, incoming_offsets, incoming_edges, .. } => {
            &&& incoming_offsets@.len() == segments@.len() + 1
            &&& crate::graph::csr_wf(incoming_offsets@, incoming_edges@.len() as int)
        },
    }
}

/// The weight the overlay colours segment `i` by.
pub open spec fn current_weight_of(o: &TrafficOverlay, i: int, weights: Option<Seq<u32>>) -> u32 {
    let seg = segments_of(o)[i];
    match o {
        TrafficOverlay::Normal { .. } => match weights {
            Some(ws) => if i < ws.len() {
                ws[i]
            } else {
                seg.baseline_weight
            },
            None => seg.baseline_weight,
        },
        TrafficOverlay::LineGraphPseudoNormal { incoming_offsets, incoming_edges, .. } => match weights {
            Some(ws) => overlay_pseudo_weight(i, seg.baseline_weight, ws, incoming_offsets@, incoming_edges@),
            None => seg.baseline_weight,
        },
    }
}

/// The segments drawn in each colour, as positions in arc order.
pub struct RenderedOverlay {
    pub green: Vec<usize>,
    pub yellow: Vec<usize>,
    pub red: Vec<usize>,
    pub tertiary_filter_supported: bool,
    pub tertiary_and_above_only: bool,
}

/// The positions below `k` that are visible and have status `status`.
pub open spec fn bucket(
    o: &TrafficOverlay,
    in_view: Seq<bool>,
    only_major: bool,
    weights: Option<Seq<u32>>,
    status: TrafficStatus,
    k: int,
) -> Seq<usize>
    decreases k,
{
    if k <= 0 {
        Seq::empty()
    } else {
        let prev = bucket(o, in_view, only_major, weights, status, k - 1);
        let seg = segments_of(o)[k - 1];
        if in_view[k - 1] && !(only_major && !seg.is_tertiary_and_above) && status_of(
            seg.baseline_weight,
            current_weight_of(o, k - 1, weights),
        ) == status {
            prev.push((k - 1) as usize)
        } else {
            prev
        }
    }
}

/// The view of optional weights.
pub open spec fn weights_view(weights: Option<&Vec<u32>>) -> Option<Seq<u32>> {
    match weights {
        Some(ws) => Some(ws@),
        None => None,
    }
}

impl TrafficOverlay {
    /// The overlay of a normal graph: one segment per arc with its baseline
    /// weight and major-road flag.
    pub fn from_normal(baseline_weights: &Vec<u32>, major_road_flags: &Vec<bool>, tertiary_filter_supported: bool) -> (o: TrafficOverlay)
        requires
            major_road_flags@.len() == baseline_weights@.len(),
        ensures
            o is Normal,
            filter_supported(&o) == tertiary_filter_supported,
            segments_of(&o).len() == baseline_weights@.len(),
            forall|i: int| 0 <= i < baseline_weights@.len() ==> #[trigger] segments_of(&o)[i] == (SegmentInfo {
                baseline_weight: baseline_weights@[i],
                is_tertiary_and_above: major_road_flags@[i],
            }),
    {
        let segments = segment_infos(baseline_weights, major_road_flags);
        TrafficOverlay::Normal { segments, tertiary_filter_supported }
    }

    /// The overlay of a line graph: one segment per original arc, and the
    /// turns into every original arc grouped by it, which is the turn index
    /// `build_incoming_index` builds from the same heads and arc count.
    pub fn from_line_graph(
        original_travel_time: &Vec<u32>,
        major_road_flags: &Vec<bool>,
        tertiary_filter_supported: bool,
        line_graph_head: &Vec<u32>,
    ) -> (o: TrafficOverlay)
        requires
            major_road_flags@.len() == original_travel_time@.len(),
            line_graph_head@.len() <= u32::MAX,
            original_travel_time@.len() < usize::MAX,
        ensures
            o is LineGraphPseudoNormal,
            overlay_wf(&o),
            filter_supported(&o) == tertiary_filter_supported,
            segments_of(&o).len() == original_travel_time@.len(),
            forall|i: int| 0 <= i < original_travel_time@.len() ==> #[trigger] segments_of(&o)[i] == (SegmentInfo {
                baseline_weight: original_travel_time@[i],
                is_tertiary_and_above: major_road_flags@[i],
            }),
            match o {
                TrafficOverlay::LineGraphPseudoNormal { incoming_offsets, incoming_edges, .. } => crate::graph::groups_by_key(
                    line_graph_head@,
                    original_travel_time@.len() as int,
                    incoming_offsets@,
                    incoming_edges@,
                ) && (incoming_offsets@, incoming_edges@) == crate::route_eval::incoming_index(
                    line_graph_head@,
                    original_travel_time@.len() as int,
                ),
                _ => false,
            },
    {
        let segments = segment_infos(original_travel_time, major_road_flags);
        let (incoming_offsets, incoming_edges) = crate::graph::group_by_key(line_graph_head, original_travel_time.len());
        proof {
            crate::graph::lemma_groups_by_key_facts(line_graph_head@, original_travel_time@.len() as int, incoming_offsets@, incoming_edges@);
            crate::route_eval::lemma_incoming_index(line_graph_head@, original_travel_time@.len() as int, incoming_offsets@, incoming_edges@);
        }
        TrafficOverlay::LineGraphPseudoNormal { segments, incoming_offsets, incoming_edges, tertiary_filter_supported }
    }

    /// Whether the major-road filter is available.
    pub fn tertiary_filter_supported(&self) -> (b: bool)
        ensures
            b == filter_supported(self),
    {
        match self {
            TrafficOverlay::Normal { tertiary_filter_supported, .. } => *tertiary_filter_supported,
            TrafficOverlay::LineGraphPseudoNormal { tertiary_filter_supported, .. } => *tertiary_filter_supported,
        }
    }

    /// Sorts the segments in view into the three status buckets by their
    /// current weight (the active weights when given, else the baseline);
    /// with the major-road filter asked for and supported, only major roads
    /// are drawn.
    pub fn render(&self, in_view: &Vec<bool>, tertiary_and_above_only: bool, current_weights: Option<&Vec<u32>>) -> (r: RenderedOverlay)
        requires
            overlay_wf(self),
            in_view@.len() == segments_of(self).len(),
        ensures
            r.tertiary_filter_supported == filter_supported(self),
            r.tertiary_and_above_only == (tertiary_and_above_only && filter_supported(self)),
            r.green@ == bucket(self, in_view@, r.tertiary_and_above_only, weights_view(current_weights), TrafficStatus::Green, in_view@.len() as int),
            r.yellow@ == bucket(self, in_view@, r.tertiary_and_above_only, weights_view(current_weights), TrafficStatus::Yellow, in_view@.len() as int),
            r.red@ == bucket(self, in_view@, r.tertiary_and_above_only, weights_view(current_weights), TrafficStatus::Red, in_view@.len() as int),
    {
        let supported = self.tertiary_filter_supported();
        let only_major = tertiary_and_above_only && supported;
        let segments = match self {
            TrafficOverlay::Normal { segments, .. } => segments,
            TrafficOverlay::LineGraphPseudoNormal { segments, .. } => segments,
        };
        let ghost ws = weights_view(current_weights);
        let mut green: Vec<usize> = Vec::new();
        let mut yellow: Vec<usize> = Vec::new();
        let mut red: Vec<usize> = Vec::new();
        let mut i: usize = 0;
        while i < segments.len()
            invariant
                overlay_wf(self),
                segments@ == segments_of(self),
                in_view@.len() == segments@.len(),
                i <= segments@.len(),
                ws == weights_view(current_weights),
                green@ == bucket(self, in_view@, only_major, ws, TrafficStatus::Green, i as int),
                yellow@ == bucket(self, in_view@, only_major, ws, TrafficStatus::Yellow, i as int),
                red@ == bucket(self, in_view@, only_major, ws, TrafficStatus::Red, i as int),
            decreases segments@.len() - i,
        {
            let seg = segments[i];
            if in_view[i] && !(only_major && !seg.is_tertiary_and_above) {
                let current = match self {
                    TrafficOverlay::Normal { .. } => normal_segment_weight(i, seg.baseline_weight, current_weights),
                    TrafficOverlay::LineGraphPseudoNormal { incoming_offsets, incoming_edges, .. } => match current_weights {
                        Some(ws) => {
                            proof {
                                assert(incoming_offsets@[i as int] <= incoming_offsets@[i + 1]);
                                assert(incoming_offsets@[i + 1] <= incoming_offsets@[incoming_offsets@.len() - 1]);
                            }
                            pseudo_normal_arc_weight(i, seg.baseline_weight, ws, incoming_offsets, incoming_edges)
                        },
                        None => seg.baseline_weight,
                    },
                };
                proof {
                    assert(current == current_weight_of(self, i as int, ws));
                }
                match classify_status(seg.baseline_weight, current) {
                    TrafficStatus::Green => green.push(i),
                    TrafficStatus::Yellow => yellow.push(i),
                    TrafficStatus::Red => red.push(i),
                }
            }
            i = i + 1;
        }
        RenderedOverlay { green, yellow, red, tertiary_filter_supported: supported, tertiary_and_above_only: only_major }
    }
}

/// One segment description per arc.
fn segment_infos(baseline_weights: &Vec<u32>, major_road_flags: &Vec<bool>) -> (segments: Vec<SegmentInfo>)
    requires
        major_road_flags@.len() == baseline_weights@.len(),
    ensures
        segments@.len() == baseline_weights@.len(),
        forall|i: int| 0 <= i < baseline_weights@.len() ==> #[trigger] segments@[i] == (SegmentInfo {
            baseline_weight: baseline_weights@[i],
            is_tertiary_and_above: major_road_flags@[i],
        }),
{
    let mut segments: Vec<SegmentInfo> = Vec::new();
    let mut i: usize = 0;
    while i < baseline_weights.len()
        invariant
            major_road_flags@.len() == baseline_weights@.len(),
            i <= baseline_weights@.len(),
            segments@.len() == i,
            forall|j: int| 0 <= j < i ==> #[trigger] segments@[j] == (SegmentInfo {
                baseline_weight: baseline_weights@[j],
                is_tertiary_and_above: major_road_flags@[j],
            }),
        decreases baseline_weights@.len() - i,
    {
        segments.push(SegmentInfo { baseline_weight: baseline_weights[i], is_tertiary_and_above: major_road_flags[i] });
        i = i + 1;
    }
    segments
}

/// The severity of a status: green, then yellow, then red.
pub open spec fn severity(status: TrafficStatus) -> int {
    match status {
        TrafficStatus::Green => 0,
        TrafficStatus::Yellow => 1,
        TrafficStatus::Red => 2,
    }
}

/// A larger view never draws fewer segments: when every segment visible in
/// `narrow` is visible in `wide`, each colour's list for `narrow` is a
/// subsequence of the one for `wide` (both lists increase strictly, and
/// every position of the first is in the second).
pub proof fn lemma_bucket_view_monotone(
    o: &TrafficOverlay,
    narrow: Seq<bool>,
    wide: Seq<bool>,
    only_major: bool,
    weights: Option<Seq<u32>>,
    status: TrafficStatus,
    k: int,
)
    requires
        0 <= k <= narrow.len(),
        narrow.len() <= usize::MAX,
        narrow.len() == wide.len(),
        forall|i: int| 0 <= i < narrow.len() && #[trigger] narrow[i] ==> wide[i],
    ensures
        bucket(o, narrow, only_major, weights, status, k).len() <= bucket(o, wide, only_major, weights, status, k).len(),
        forall|x: usize| #[trigger] bucket(o, narrow, only_major, weights, status, k).contains(x) ==> bucket(
            o,
            wide,
            only_major,
            weights,
            status,
            k,
        ).contains(x),
        forall|a: int, b: int|
            0 <= a < b < bucket(o, narrow, only_major, weights, status, k).len() ==> bucket(o, narrow, only_major, weights, status, k)[a]
                < bucket(o, narrow, only_major, weights, status, k)[b],
        forall|a: int| 0 <= a < bucket(o, narrow, only_major, weights, status, k).len() ==> (#[trigger] bucket(o, narrow, only_major, weights, status, k)[a] as int) < k,
    decreases k,
{
    if k > 0 {
        lemma_bucket_view_monotone(o, narrow, wide, only_major, weights, status, k - 1);
        let pn = bucket(o, narrow, only_major, weights, status, k - 1);
        let pw = bucket(o, wide, only_major, weights, status, k - 1);
        let bn = bucket(o, narrow, only_major, weights, status, k);
        let bw = bucket(o, wide, only_major, weights, status, k);
        assert forall|x: usize| #[trigger] bn.contains(x) implies bw.contains(x) by {
            if pn.contains(x) {
                let j = choose|j: int| 0 <= j < pw.len() && pw[j] == x;
                if bw != pw {
                    assert(bw[j] == pw[j]);
                }
            } else {
                assert(bn != pn);
                assert(x == (k - 1) as usize);
                assert(narrow[k - 1]);
                assert(bw == pw.push((k - 1) as usize));
                assert(bw[pw.len() as int] == x);
            }
        }
        if bn != pn {
            assert(bn == pn.push((k - 1) as usize));
            assert forall|a: int, b: int| 0 <= a < b < bn.len() implies bn[a] < bn[b] by {
                if b == pn.len() {
                    assert((pn[a] as int) < k - 1);
                }
            }
        }
    }
}

/// More travel time on the same segment never shows a milder status.
pub proof fn lemma_status_monotone(baseline_weight: u32, current: u32, slower: u32)
    requires
        current <= slower,
    ensures
        severity(status_of(baseline_weight, current)) <= severity(status_of(baseline_weight, slower)),
{
    assert(100 * current <= 100 * slower);
}

/// Every drawn segment lands in exactly one bucket: the three buckets of a
/// rendering are disjoint and together hold exactly the segments in view
/// that pass the major-road filter.
pub proof fn lemma_buckets_partition(o: &TrafficOverlay, in_view: Seq<bool>, only_major: bool, weights: Option<Seq<u32>>, k: int, i: int)
    requires
        0 <= k <= in_view.len(),
        in_view.len() == segments_of(o).len(),
        in_view.len() <= usize::MAX,
        0 <= i < k,
    ensures
        (bucket(o, in_view, only_major, weights, TrafficStatus::Green, k).contains(i as usize)
            || bucket(o, in_view, only_major, weights, TrafficStatus::Yellow, k).contains(i as usize)
            || bucket(o, in_view, only_major, weights, TrafficStatus::Red, k).contains(i as usize)) <==> (in_view[i]
            && !(only_major && !segments_of(o)[i].is_tertiary_and_above)),
        !(bucket(o, in_view, only_major, weights, TrafficStatus::Green, k).contains(i as usize)
            && bucket(o, in_view, only_major, weights, TrafficStatus::Yellow, k).contains(i as usize)),
        !(bucket(o, in_view, only_major, weights, TrafficStatus::Green, k).contains(i as usize)
            && bucket(o, in_view, only_major, weights, TrafficStatus::Red, k).contains(i as usize)),
        !(bucket(o, in_view, only_major, weights, TrafficStatus::Yellow, k).contains(i as usize)
            && bucket(o, in_view, only_major, weights, TrafficStatus::Red, k).contains(i as usize)),
{
    lemma_bucket_members(o, in_view, only_major, weights, TrafficStatus::Green, k, i);
    lemma_bucket_members(o, in_view, only_major, weights, TrafficStatus::Yellow, k, i);
    lemma_bucket_members(o, in_view, only_major, weights, TrafficStatus::Red, k, i);
}

/// Position `i < k` is in a bucket exactly when it is drawn with that
/// status.
proof fn lemma_bucket_members(o: &TrafficOverlay, in_view: Seq<bool>, only_major: bool, weights: Option<Seq<u32>>, status: TrafficStatus, k: int, i: int)
    requires
        0 <= k <= in_view.len(),
        in_view.len() == segments_of(o).len(),
        in_view.len() <= usize::MAX,
        0 <= i < k,
    ensures
        bucket(o, in_view, only_major, weights, status, k).contains(i as usize) <==> (in_view[i] && !(only_major
            && !segments_of(o)[i].is_tertiary_and_above) && status_of(
            segments_of(o)[i].baseline_weight,
            current_weight_of(o, i, weights),
        ) == status),
    decreases k,
{
    lemma_bucket_below(o, in_view, only_major, weights, status, k - 1);
    let prev = bucket(o, in_view, only_major, weights, status, k - 1);
    if i < k - 1 {
        lemma_bucket_members(o, in_view, only_major, weights, status, k - 1, i);
        if bucket(o, in_view, only_major, weights, status, k).contains(i as usize) {
            let j = choose|j: int| 0 <= j < bucket(o, in_view, only_major, weights, status, k).len() && bucket(o, in_view, only_major, weights, status, k)[j] == i as usize;
            if j == prev.len() {
                assert((k - 1) as usize == i as usize);
            } else {
                assert(prev[j] == i as usize);
            }
        }
        if prev.contains(i as usize) {
            let j = choose|j: int| 0 <= j < prev.len() && prev[j] == i as usize;
            assert(bucket(o, in_view, only_major, weights, status, k)[j] == i as usize);
        }
    } else {
        if bucket(o, in_view, only_major, weights, status, k).contains(i as usize) {
            let j = choose|j: int| 0 <= j < bucket(o, in_view, only_major, weights, status, k).len() && bucket(o, in_view, only_major, weights, status, k)[j] == i as usize;
            if j < prev.len() {
                assert(prev[j] < k - 1);
            }
        } else {
            let b = bucket(o, in_view, only_major, weights, status, k);
            if in_view[i] && !(only_major && !segments_of(o)[i].is_tertiary_and_above) && status_of(
                segments_of(o)[i].baseline_weight,
                current_weight_of(o, i, weights),
            ) == status {
                assert(b[prev.len() as int] == i as usize);
            }
        }
    }
}

/// Every entry of a bucket over the first `k` positions is below `k`.
proof fn lemma_bucket_below(o: &TrafficOverlay, in_view: Seq<bool>, only_major: bool, weights: Option<Seq<u32>>, status: TrafficStatus, k: int)
    requires
        0 <= k <= in_view.len(),
        in_view.len() <= usize::MAX,
    ensures
        forall|j: int| 0 <= j < bucket(o, in_view, only_major, weights, status, k).len() ==> (#[trigger] bucket(o, in_view, only_major, weights, status, k)[j] as int) < k,
    decreases k,
{
    if k > 0 {
        lemma_bucket_below(o, in_view, only_major, weights, status, k - 1);
        let prev = bucket(o, in_view, only_major, weights, status, k - 1);
        let cur = bucket(o, in_view, only_major, weights, status, k);
        assert forall|j: int| 0 <= j < cur.len() implies (#[trigger] cur[j] as int) < k by {
            if j < prev.len() {
                assert(cur[j] == prev[j]);
            } else {
                assert(cur[j] == (k - 1) as usize);
            }
        }
    }
}

} // verus!
