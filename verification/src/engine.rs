//! The decisions of the query engine loop: which kind of query a request
//! asks, which response format it wants, and what the loop does next.

use vstd::prelude::*;

verus! {

/// What a query request asks for.
#[derive(Clone, Copy, Debug, PartialEq, Eq, Structural)]
pub enum QueryKind {
    /// A route between two coordinates (all four given).
    Coordinates,
    /// A route between two node ids.
    Nodes { from: u32, to: u32 },
    /// Neither: the answer is "no route".
    Unanswerable,
}

/// Coordinates win when all four are given; else node ids when both are.
pub fn query_kind(
    has_from_lat: bool,
    has_from_lng: bool,
    has_to_lat: bool,
    has_to_lng: bool,
    from_node: Option<u32>,
    to_node: Option<u32>,
) -> (k: QueryKind)
    ensures
        has_from_lat && has_from_lng && has_to_lat && has_to_lng ==> k == QueryKind::Coordinates,
        !(has_from_lat && has_from_lng && has_to_lat && has_to_lng) ==> k == (match (from_node, to_node) {
            (Some(from), Some(to)) => QueryKind::Nodes { from, to },
            _ => QueryKind::Unanswerable,
        }),
{
    if has_from_lat && has_from_lng && has_to_lat && has_to_lng {
        QueryKind::Coordinates
    } else {
        match (from_node, to_node) {
            (Some(from), Some(to)) => QueryKind::Nodes { from, to },
            _ => QueryKind::Unanswerable,
        }
    }
}

/// How an answer is rendered.
#[derive(Clone, Copy, Debug, PartialEq, Eq, Structural)]
pub enum ResponseFormat {
    /// Plain JSON.
    Json,
    /// A GeoJSON feature collection (the default).
    GeoJson,
}

/// `"json"` selects plain JSON; anything else, or nothing, GeoJSON.
pub fn response_format(format: Option<&str>) -> (f: ResponseFormat)
    ensures
        f == (if format matches Some(s) && s@ == "json"@ {
            ResponseFormat::Json
        } else {
            ResponseFormat::GeoJson
        }),
{
    match format {
        Some(s) => {
            let given = String::from_str(s);
            let json = String::from_str("json");
            if given == json {
                ResponseFormat::Json
            } else {
                ResponseFormat::GeoJson
            }
        },
        None => ResponseFormat::GeoJson,
    }
}

/// What the engine loop received while waiting for a query.
#[derive(Clone, Copy, Debug, PartialEq, Eq, Structural)]
pub enum Received {
    /// A query arrived.
    Query,
    /// The query channel closed.
    Closed,
    /// No query within the poll interval.
    Timeout,
}

/// What the engine loop does in one round.
#[derive(Clone, Copy, Debug, PartialEq, Eq, Structural)]
pub struct EngineStep {
    /// Re-customize with the pending weights first.
    pub recustomize: bool,
    /// Answer the received query.
    pub answer: bool,
    /// Leave the loop (and report the engine as no longer alive).
    pub stop: bool,
}

/// One round of the engine loop: pending weights are applied first, then a
/// received query is answered, a closed channel ends the loop and a timeout
/// starts the next round.
pub fn engine_step(weights_pending: bool, received: Received) -> (step: EngineStep)
    ensures
        step.recustomize == weights_pending,
        step.answer == (received == Received::Query),
        step.stop == (received == Received::Closed),
{
    EngineStep {
        recustomize: weights_pending,
        answer: received == Received::Query,
        stop: received == Received::Closed,
    }
}

} // verus!
