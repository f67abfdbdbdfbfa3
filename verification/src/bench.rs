//! Benchmark run configuration and report formats.

use vstd::prelude::*;

verus! {

/// How a benchmark is run.
#[derive(Clone, Copy, Debug, PartialEq, Eq, Structural)]
pub struct BenchmarkConfig {
    pub warmup_iterations: usize,
    pub measured_iterations: usize,
    pub query_count: usize,
    pub seed: u64,
}

impl Default for BenchmarkConfig {
    /// Three warm-up and ten measured iterations over 1000 queries drawn with
    /// seed 42.
    fn default() -> (c: Self)
        ensures
            c.warmup_iterations == 3,
            c.measured_iterations == 10,
            c.query_count == 1000,
            c.seed == 42,
    {
        BenchmarkConfig { warmup_iterations: 3, measured_iterations: 10, query_count: 1000, seed: 42 }
    }
}

/// Report output format.
#[derive(Clone, Copy, Debug, PartialEq, Eq, Structural)]
pub enum ReportFormat {
    /// Human-readable table.
    Table,
    /// Machine-readable JSON.
    Json,
    /// CSV.
    Csv,
}

/// Character `c` lowered (ASCII letters only) is `w`.
pub open spec fn lowers_to(c: char, w: char) -> bool {
    if 'A' <= c && c <= 'Z' {
        c as u32 + 32 == w as u32
    } else {
        c == w
    }
}

/// `s` equals the lower-case word `word` when its letters are lowered.
pub open spec fn matches_lowered(s: Seq<char>, word: Seq<char>) -> bool {
    &&& s.len() == word.len()
    &&& forall|i: int| 0 <= i < s.len() ==> lowers_to(#[trigger] s[i], word[i])
}

/// The format a name selects, ignoring case: `json`, `csv`, anything else a
/// table.
pub open spec fn format_of(s: Seq<char>) -> ReportFormat {
    if matches_lowered(s, "json"@) {
        ReportFormat::Json
    } else if matches_lowered(s, "csv"@) {
        ReportFormat::Csv
    } else {
        ReportFormat::Table
    }
}

fn lowers(c: char, w: char) -> (b: bool)
    ensures
        b == lowers_to(c, w),
{
    if 'A' <= c && c <= 'Z' {
        c as u32 + 32 == w as u32
    } else {
        c == w
    }
}

fn lowered_equals(s: &str, word: &str) -> (b: bool)
    ensures
        b == matches_lowered(s@, word@),
{
    let n = s.unicode_len();
    if word.unicode_len() != n {
        return false;
    }
    let mut i: usize = 0;
    while i < n
        invariant
            n == s@.len(),
            n == word@.len(),
            i <= n,
            forall|j: int| 0 <= j < i ==> lowers_to(#[trigger] s@[j], word@[j]),
        decreases n - i,
    {
        if !lowers(s.get_char(i), word.get_char(i)) {
            return false;
        }
        i = i + 1;
    }
    true
}

/// The report format named by `s`, ignoring case.
pub fn parse_format(s: &str) -> (f: ReportFormat)
    ensures
        f == format_of(s@),
{
    if lowered_equals(s, "json") {
        ReportFormat::Json
    } else if lowered_equals(s, "csv") {
        ReportFormat::Csv
    } else {
        ReportFormat::Table
    }
}

/// The counters a measurement's metadata may carry.
#[derive(Clone, Copy, Debug, PartialEq, Eq, Structural)]
pub struct MeasurementCounts {
    pub queries: Option<u64>,
    pub found: Option<u64>,
    pub snaps: Option<u64>,
}

/// The sum of the present values.
pub open spec fn sum_present(values: Seq<Option<u64>>) -> int
    decreases values.len(),
{
    if values.len() == 0 {
        0
    } else {
        sum_present(values.drop_last()) + match values.last() {
            Some(v) => v as int,
            None => 0,
        }
    }
}

/// The number of queries a measurement attempted: its query count, else
/// its snap count.
pub open spec fn attempted(c: MeasurementCounts) -> Option<u64> {
    match c.queries {
        Some(q) => Some(q),
        None => c.snaps,
    }
}

/// Totals over a run: queries, found routes, and attempts (queries or
/// snaps).
pub fn count_totals(counts: &Vec<MeasurementCounts>) -> (totals: (u128, u128, u128))
    ensures
        totals.0 == sum_present(counts@.map_values(|c: MeasurementCounts| c.queries)),
        totals.1 == sum_present(counts@.map_values(|c: MeasurementCounts| c.found)),
        totals.2 == sum_present(counts@.map_values(|c: MeasurementCounts| attempted(c))),
{
    let mut queries: u128 = 0;
    let mut found: u128 = 0;
    let mut attempts: u128 = 0;
    let mut i: usize = 0;
    let n = counts.len();
    while i < n
        invariant
            n == counts@.len(),
            i <= counts@.len(),
            counts@.len() <= u64::MAX,
            queries == sum_present(counts@.take(i as int).map_values(|c: MeasurementCounts| c.queries)),
            found == sum_present(counts@.take(i as int).map_values(|c: MeasurementCounts| c.found)),
            attempts == sum_present(counts@.take(i as int).map_values(|c: MeasurementCounts| attempted(c))),
            queries <= i * 0x1_0000_0000_0000_0000,
            found <= i * 0x1_0000_0000_0000_0000,
            attempts <= i * 0x1_0000_0000_0000_0000,
        decreases counts@.len() - i,
    {
        let c = counts[i];
        proof {
            let t = counts@.take(i + 1);
            assert(t.drop_last() =~= counts@.take(i as int));
            assert(t.map_values(|c: MeasurementCounts| c.queries).drop_last() =~= counts@.take(i as int).map_values(|c: MeasurementCounts| c.queries));
            assert(t.map_values(|c: MeasurementCounts| c.found).drop_last() =~= counts@.take(i as int).map_values(|c: MeasurementCounts| c.found));
            assert(t.map_values(|c: MeasurementCounts| attempted(c)).drop_last() =~= counts@.take(i as int).map_values(
                |c: MeasurementCounts| attempted(c),
            ));
            assert((i + 1) * 0x1_0000_0000_0000_0000 == i * 0x1_0000_0000_0000_0000 + 0x1_0000_0000_0000_0000);
            assert(i * 0x1_0000_0000_0000_0000 <= u64::MAX * 0x1_0000_0000_0000_0000) by (nonlinear_arith)
                requires i <= u64::MAX;
        }
        match c.queries {
            Some(q) => {
                queries = queries + q as u128;
            },
            None => {},
        }
        match c.found {
            Some(f) => {
                found = found + f as u128;
            },
            None => {},
        }
        match c.queries {
            Some(q) => {
                attempts = attempts + q as u128;
            },
            None => match c.snaps {
                Some(sn) => {
                    attempts = attempts + sn as u128;
                },
                None => {},
            },
        }
        i = i + 1;
    }
    proof {
        assert(counts@.take(counts@.len() as int) =~= counts@);
    }
    (queries, found, attempts)
}

} // verus!
