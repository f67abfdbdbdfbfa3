//! Request and response types of the routing server and the gateway, and
//! the validation they perform: the binary weight upload of a
//! customization and the URLs a gateway forwards requests to.

use vstd::prelude::*;
use crate::graph::INFINITY;

verus! {

/// Output options of a query.
pub struct FormatParam {
    pub format: Option<String>,
    pub colors: Option<String>,
}

/// The answer to a customization upload.
pub struct CustomizeResponse {
    pub accepted: bool,
    pub message: String,
}

/// The answer to a health probe.
pub struct HealthResponse {
    pub status: String,
    pub uptime_seconds: u64,
    pub total_queries_processed: u64,
    pub customization_active: bool,
}

/// The answer to a readiness probe.
pub struct ReadyResponse {
    pub ready: bool,
}

/// Query-string parameters of a gateway query: the routing profile and the
/// output options forwarded to its backend.
pub struct GatewayQueryParam {
    pub profile: String,
    pub format: Option<String>,
    pub colors: Option<String>,
}

/// Query-string parameters of a gateway info request.
pub struct InfoQuery {
    pub profile: Option<String>,
}

/// Why a customization upload was refused.
#[derive(Clone, Copy, Debug, PartialEq, Eq, Structural)]
pub enum CustomizeError {
    /// The body is not four bytes per arc.
    BodyLength { expected: usize, got: usize },
    /// A weight is above `INFINITY` (which itself marks a closed road).
    WeightTooLarge { pos: usize, value: u32 },
}

/// The first weight above `INFINITY`, with its position.
pub open spec fn first_too_large(weights: Seq<u32>, k: int) -> Option<(int, u32)>
    decreases weights.len() - k,
{
    if k < 0 || k >= weights.len() {
        None
    } else if weights[k] > INFINITY {
        Some((k, weights[k]))
    } else {
        first_too_large(weights, k + 1)
    }
}

proof fn lemma_first_too_large_none(weights: Seq<u32>, k: int)
    requires
        0 <= k <= weights.len(),
        first_too_large(weights, k) is None,
    ensures
        forall|i: int| k <= i < weights.len() ==> #[trigger] weights[i] <= INFINITY,
    decreases weights.len() - k,
{
    if k < weights.len() {
        lemma_first_too_large_none(weights, k + 1);
    }
}

proof fn lemma_first_too_large_some(weights: Seq<u32>, k: int)
    requires
        0 <= k,
    ensures
        first_too_large(weights, k) matches Some((p, v)) ==> k <= p < weights.len() && weights[p] == v && v > INFINITY,
    decreases weights.len() - k,
{
    if k < weights.len() && weights[k] <= INFINITY {
        lemma_first_too_large_some(weights, k + 1);
    }
}

/// Checks that no weight exceeds `INFINITY`; reports the first that does.
pub fn check_weights(weights: &Vec<u32>) -> (res: Result<(), CustomizeError>)
    ensures
        match first_too_large(weights@, 0) {
            Some((pos, value)) => res == Err::<(), CustomizeError>(CustomizeError::WeightTooLarge { pos: pos as usize, value }),
            None => res is Ok,
        },
        res is Ok ==> forall|i: int| 0 <= i < weights@.len() ==> #[trigger] weights@[i] <= INFINITY,
{
    let mut i: usize = 0;
    while i < weights.len()
        invariant
            i <= weights@.len(),
            first_too_large(weights@, 0) == first_too_large(weights@, i as int),
        decreases weights@.len() - i,
    {
        if weights[i] > INFINITY {
            return Err(CustomizeError::WeightTooLarge { pos: i, value: weights[i] });
        }
        i = i + 1;
    }
    proof {
        lemma_first_too_large_none(weights@, 0);
    }
    Ok(())
}

/// The little-endian 32-bit word at position `i` of the body (bytes
/// `4i .. 4i + 4`).
pub open spec fn le_word(body: Seq<u8>, i: int) -> u32 {
    (body[4 * i] + 256 * body[4 * i + 1] + 65536 * body[4 * i + 2] + 16777216 * body[4 * i + 3]) as u32
}

/// The first `n` little-endian words of the body.
pub open spec fn le_words(body: Seq<u8>, n: int) -> Seq<u32> {
    Seq::new(n as nat, |i: int| le_word(body, i))
}

/// Reads `count` little-endian 32-bit words from a body of `4 * count`
/// bytes.
fn decode_le_words(body: &Vec<u8>, count: usize) -> (weights: Vec<u32>)
    requires
        body@.len() == count * 4,
        count * 4 <= usize::MAX,
    ensures
        weights@ == le_words(body@, count as int),
{
    let mut weights: Vec<u32> = Vec::new();
    let mut i: usize = 0;
    while i < count
        invariant
            body@.len() == count * 4,
            count * 4 <= usize::MAX,
            i <= count,
            weights@ == le_words(body@, i as int),
        decreases count - i,
    {
        let k = 4 * i;
        let w: u32 = body[k] as u32 + (body[k + 1] as u32) * 256 + (body[k + 2] as u32) * 65536 + (body[k + 3] as u32)
            * 16777216;
        weights.push(w);
        proof {
            assert(weights@ =~= le_words(body@, i + 1));
        }
        i = i + 1;
    }
    weights
}

/// Decodes and checks the body of a customization upload: four bytes per
/// arc, each weight a little-endian word, none above `INFINITY`.
pub fn weights_from_body(body: &Vec<u8>, num_edges: usize) -> (res: Result<Vec<u32>, CustomizeError>)
    requires
        num_edges * 4 <= usize::MAX,
    ensures
        body@.len() != num_edges * 4 ==> res == Err::<Vec<u32>, CustomizeError>(
            CustomizeError::BodyLength { expected: (num_edges * 4) as usize, got: body@.len() as usize },
        ),
        body@.len() == num_edges * 4 ==> match first_too_large(le_words(body@, num_edges as int), 0) {
            Some((pos, value)) => res == Err::<Vec<u32>, CustomizeError>(
                CustomizeError::WeightTooLarge { pos: pos as usize, value },
            ),
            None => res matches Ok(w) && w@ == le_words(body@, num_edges as int),
        },
{
    let expected = num_edges * 4;
    if body.len() != expected {
        return Err(CustomizeError::BodyLength { expected, got: body.len() });
    }
    let weights = decode_le_words(body, num_edges);
    match check_weights(&weights) {
        Err(e) => Err(e),
        Ok(()) => Ok(weights),
    }
}

/// The part of a forwarded query URL after the path.
pub open spec fn forwarded_query(format: Option<Seq<char>>, colors: bool) -> Seq<char> {
    match format {
        Some(f) => if colors {
            "?format="@ + f + "&colors"@
        } else {
            "?format="@ + f
        },
        None => if colors {
            "?colors"@
        } else {
            Seq::empty()
        },
    }
}

/// The backend URL a gateway query is forwarded to: the backend's query
/// endpoint with the format and colour options.
pub fn backend_query_url(backend: &str, format: &Option<String>, colors: bool) -> (url: String)
    ensures
        url@ == backend@ + "/query"@ + forwarded_query(
            match format {
                Some(f) => Some(f@),
                None => None,
            },
            colors,
        ),
{
    let mut url = String::from_str(backend);
    url.append("/query");
    match format {
        Some(f) => {
            url.append("?format=");
            url.append(f.as_str());
            if colors {
                url.append("&colors");
            }
        },
        None => {
            if colors {
                url.append("?colors");
            }
        },
    }
    proof {
        reveal_strlit("/query");
    }
    url
}

/// The backend URL of a gateway info request.
pub fn backend_info_url(backend: &str) -> (url: String)
    ensures
        url@ == backend@ + "/info"@,
{
    let mut url = String::from_str(backend);
    url.append("/info");
    url
}

/// The profile an info request is answered for: the requested one, else the
/// first available profile, else `"car"`.
pub fn info_profile(requested: &Option<String>, sorted_profiles: &Vec<String>) -> (profile: String)
    ensures
        profile@ == match requested {
            Some(p) => p@,
            None => if sorted_profiles@.len() > 0 {
                sorted_profiles@[0]@
            } else {
                "car"@
            },
        },
{
    match requested {
        Some(p) => p.clone(),
        None => if sorted_profiles.len() > 0 {
            sorted_profiles[0].clone()
        } else {
            String::from_str("car")
        },
    }
}

/// Which path a configured relative path resolves to.
#[derive(Clone, Copy, Debug, PartialEq, Eq, Structural)]
pub enum PathChoice {
    /// The path as given.
    AsGiven,
    /// The path taken relative to the repository root.
    RepoRelative,
}

/// A path is used as given when it is absolute or exists; else relative to
/// the repository root when that exists; else as given.
pub fn resolve_path_choice(is_absolute: bool, exists: bool, repo_relative_exists: bool) -> (c: PathChoice)
    ensures
        c == (if is_absolute || exists {
            PathChoice::AsGiven
        } else if repo_relative_exists {
            PathChoice::RepoRelative
        } else {
            PathChoice::AsGiven
        }),
{
    if is_absolute || exists {
        PathChoice::AsGiven
    } else if repo_relative_exists {
        PathChoice::RepoRelative
    } else {
        PathChoice::AsGiven
    }
}

} // verus!
