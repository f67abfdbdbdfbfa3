//! The consistency checks of a graph loaded from RoutingKit arrays.

use vstd::prelude::*;

verus! {

/// Why loaded graph arrays were rejected.
#[derive(Clone, Copy, Debug, PartialEq, Eq, Structural)]
pub enum GraphError {
    /// The offset array has no sentinel.
    NoSentinel,
    /// The sentinel differs from the number of arcs.
    SentinelMismatch { sentinel: u32, num_edges: usize },
    /// There is not one latitude per node.
    LatitudeLen { len: usize, num_nodes: usize },
    /// There is not one longitude per node.
    LongitudeLen { len: usize, num_nodes: usize },
    /// There is not one travel time per arc.
    TravelTimeLen { len: usize, num_edges: usize },
}

/// The verdict on loaded arrays, checked in this order: a sentinel, the
/// sentinel equals the number of arcs, one latitude and one longitude per
/// node, one travel time per arc.
pub open spec fn graph_error(
    first_out: Seq<u32>,
    head_len: int,
    travel_time_len: int,
    latitude_len: int,
    longitude_len: int,
) -> Option<GraphError> {
    if first_out.len() == 0 {
        Some(GraphError::NoSentinel)
    } else if first_out.last() != head_len {
        Some(GraphError::SentinelMismatch { sentinel: first_out.last(), num_edges: head_len as usize })
    } else if latitude_len != first_out.len() - 1 {
        Some(GraphError::LatitudeLen { len: latitude_len as usize, num_nodes: (first_out.len() - 1) as usize })
    } else if longitude_len != first_out.len() - 1 {
        Some(GraphError::LongitudeLen { len: longitude_len as usize, num_nodes: (first_out.len() - 1) as usize })
    } else if travel_time_len != head_len {
        Some(GraphError::TravelTimeLen { len: travel_time_len as usize, num_edges: head_len as usize })
    } else {
        None
    }
}

/// Checks the array lengths of a loaded graph.
pub fn graph_check(
    first_out: &Vec<u32>,
    head_len: usize,
    travel_time_len: usize,
    latitude_len: usize,
    longitude_len: usize,
) -> (res: Result<(), GraphError>)
    ensures
        match graph_error(first_out@, head_len as int, travel_time_len as int, latitude_len as int, longitude_len as int) {
            Some(e) => res == Err::<(), GraphError>(e),
            None => res is Ok,
        },
{
    if first_out.len() == 0 {
        return Err(GraphError::NoSentinel);
    }
    let num_nodes = first_out.len() - 1;
    let sentinel = first_out[num_nodes];
    if sentinel as usize != head_len {
        return Err(GraphError::SentinelMismatch { sentinel, num_edges: head_len });
    }
    if latitude_len != num_nodes {
        return Err(GraphError::LatitudeLen { len: latitude_len, num_nodes });
    }
    if longitude_len != num_nodes {
        return Err(GraphError::LongitudeLen { len: longitude_len, num_nodes });
    }
    if travel_time_len != head_len {
        return Err(GraphError::TravelTimeLen { len: travel_time_len, num_edges: head_len });
    }
    Ok(())
}

} // verus!
