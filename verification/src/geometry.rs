//! Turn directions of route maneuvers and their roundabout variants.

use vstd::prelude::*;

verus! {

/// Classification of a turn maneuver at an intersection.
#[derive(Clone, Copy, Debug, PartialEq, Eq, Structural)]
pub enum TurnDirection {
    Straight,
    SlightLeft,
    SlightRight,
    Left,
    Right,
    SharpLeft,
    SharpRight,
    UTurn,
    RoundaboutStraight,
    RoundaboutSlightLeft,
    RoundaboutSlightRight,
    RoundaboutLeft,
    RoundaboutRight,
    RoundaboutSharpLeft,
    RoundaboutSharpRight,
    RoundaboutUTurn,
}

/// The maneuver is taken inside a roundabout.
pub open spec fn is_roundabout(direction: TurnDirection) -> bool {
    match direction {
        TurnDirection::RoundaboutStraight | TurnDirection::RoundaboutSlightLeft | TurnDirection::RoundaboutSlightRight
        | TurnDirection::RoundaboutLeft | TurnDirection::RoundaboutRight | TurnDirection::RoundaboutSharpLeft
        | TurnDirection::RoundaboutSharpRight | TurnDirection::RoundaboutUTurn => true,
        _ => false,
    }
}

/// The plain maneuver behind a direction (a roundabout variant loses its
/// prefix).
pub open spec fn base_direction(direction: TurnDirection) -> TurnDirection {
    match direction {
        TurnDirection::RoundaboutStraight => TurnDirection::Straight,
        TurnDirection::RoundaboutSlightLeft => TurnDirection::SlightLeft,
        TurnDirection::RoundaboutSlightRight => TurnDirection::SlightRight,
        TurnDirection::RoundaboutLeft => TurnDirection::Left,
        TurnDirection::RoundaboutRight => TurnDirection::Right,
        TurnDirection::RoundaboutSharpLeft => TurnDirection::SharpLeft,
        TurnDirection::RoundaboutSharpRight => TurnDirection::SharpRight,
        TurnDirection::RoundaboutUTurn => TurnDirection::UTurn,
        d => d,
    }
}

/// The roundabout variant of a direction (a roundabout direction is its own
/// variant).
pub open spec fn roundabout_variant(direction: TurnDirection) -> TurnDirection {
    match direction {
        TurnDirection::Straight => TurnDirection::RoundaboutStraight,
        TurnDirection::SlightLeft => TurnDirection::RoundaboutSlightLeft,
        TurnDirection::SlightRight => TurnDirection::RoundaboutSlightRight,
        TurnDirection::Left => TurnDirection::RoundaboutLeft,
        TurnDirection::Right => TurnDirection::RoundaboutRight,
        TurnDirection::SharpLeft => TurnDirection::RoundaboutSharpLeft,
        TurnDirection::SharpRight => TurnDirection::RoundaboutSharpRight,
        TurnDirection::UTurn => TurnDirection::RoundaboutUTurn,
        d => d,
    }
}

/// The roundabout variant of a direction when `is_roundabout` holds;
/// otherwise the direction itself.
pub fn with_roundabout_prefix(direction: TurnDirection, is_roundabout: bool) -> (d: TurnDirection)
    ensures
        d == if is_roundabout { roundabout_variant(direction) } else { direction },
{
    if !is_roundabout {
        return direction;
    }
    match direction {
        TurnDirection::Straight => TurnDirection::RoundaboutStraight,
        TurnDirection::SlightLeft => TurnDirection::RoundaboutSlightLeft,
        TurnDirection::SlightRight => TurnDirection::RoundaboutSlightRight,
        TurnDirection::Left => TurnDirection::RoundaboutLeft,
        TurnDirection::Right => TurnDirection::RoundaboutRight,
        TurnDirection::SharpLeft => TurnDirection::RoundaboutSharpLeft,
        TurnDirection::SharpRight => TurnDirection::RoundaboutSharpRight,
        TurnDirection::UTurn => TurnDirection::RoundaboutUTurn,
        _ => direction,
    }
}

/// Whether a direction is a roundabout maneuver.
pub fn is_roundabout_direction(direction: TurnDirection) -> (b: bool)
    ensures
        b == is_roundabout(direction),
{
    match direction {
        TurnDirection::RoundaboutStraight | TurnDirection::RoundaboutSlightLeft | TurnDirection::RoundaboutSlightRight
        | TurnDirection::RoundaboutLeft | TurnDirection::RoundaboutRight | TurnDirection::RoundaboutSharpLeft
        | TurnDirection::RoundaboutSharpRight | TurnDirection::RoundaboutUTurn => true,
        _ => false,
    }
}

/// The roundabout prefix marks a maneuver as a roundabout one and keeps
/// the maneuver: adding it twice is adding it once, and dropping it again
/// gives the plain maneuver back.
pub proof fn lemma_roundabout_prefix(direction: TurnDirection)
    ensures
        roundabout_variant(roundabout_variant(direction)) == roundabout_variant(direction),
        is_roundabout(roundabout_variant(direction)),
        base_direction(roundabout_variant(direction)) == base_direction(direction),
        !is_roundabout(direction) ==> base_direction(direction) == direction,
{
}

} // verus!
