//! Which turn penalties a transition between two edges incurs. The
//! penalties themselves, and the left/right/straight call that needs node
//! geometry, are the caller's.

use vstd::prelude::*;

use crate::graph::{RoutingEdge, EDGE_FLAG_ROUNDABOUT, EDGE_FLAG_TARGET_TRAFFIC_SIGNAL};

verus! {

/// The shape of a transition, as far as edge ids and ways tell it.
#[derive(Debug, Clone, Copy, PartialEq, Eq, Structural)]
pub enum TurnShape {
    /// The second edge does not start where the first ends: no penalty.
    NotAdjacent,
    /// The second edge returns to where the first started.
    UTurn,
    /// Both edges belong to one source way: no turn penalty.
    SameWay,
    /// A turn between ways, to be called straight, left, right or U-turn
    /// from the node geometry.
    BetweenWays,
}

/// The penalties a transition incurs.
#[derive(Debug, Clone, Copy, PartialEq, Eq, Structural)]
pub struct TurnPenaltyParts {
    /// The first edge ends at a traffic signal.
    pub traffic_signal: bool,
    /// The transition enters a roundabout.
    pub roundabout_entry: bool,
    pub shape: TurnShape,
}

/// The penalties of the transition from `previous` to `next`.
pub open spec fn penalty_parts(previous: RoutingEdge, next: RoutingEdge) -> TurnPenaltyParts {
    if previous.to != next.from {
        TurnPenaltyParts { traffic_signal: false, roundabout_entry: false, shape: TurnShape::NotAdjacent }
    } else {
        TurnPenaltyParts {
            traffic_signal: previous.flags & EDGE_FLAG_TARGET_TRAFFIC_SIGNAL != 0,
            roundabout_entry: previous.flags & EDGE_FLAG_ROUNDABOUT == 0 && next.flags & EDGE_FLAG_ROUNDABOUT != 0,
            shape: if previous.from == next.to {
                TurnShape::UTurn
            } else if previous.source_way_id == next.source_way_id {
                TurnShape::SameWay
            } else {
                TurnShape::BetweenWays
            },
        }
    }
}

/// Which penalties the transition from `previous` to `next` incurs: a
/// signal at the shared node, a roundabout entry, and the turn's shape.
pub fn turn_penalty_parts(previous: &RoutingEdge, next: &RoutingEdge) -> (r: TurnPenaltyParts)
    ensures
        r == penalty_parts(*previous, *next),
{
    if previous.to != next.from {
        return TurnPenaltyParts { traffic_signal: false, roundabout_entry: false, shape: TurnShape::NotAdjacent };
    }
    let traffic_signal = previous.flags & EDGE_FLAG_TARGET_TRAFFIC_SIGNAL != 0;
    let roundabout_entry = previous.flags & EDGE_FLAG_ROUNDABOUT == 0 && next.flags & EDGE_FLAG_ROUNDABOUT != 0;
    let shape = if previous.from == next.to {
        TurnShape::UTurn
    } else if previous.source_way_id == next.source_way_id {
        TurnShape::SameWay
    } else {
        TurnShape::BetweenWays
    };
    TurnPenaltyParts { traffic_signal, roundabout_entry, shape }
}

/// Law: a roundabout entry is counted exactly when the transition joins
/// the two edges and moves from an edge outside a roundabout onto one in
/// it; leaving a roundabout, or moving along one, is no entry.
pub proof fn lemma_roundabout_entry_exact(previous: RoutingEdge, next: RoutingEdge)
    ensures
        penalty_parts(previous, next).roundabout_entry <==> (previous.to == next.from && previous.flags
            & EDGE_FLAG_ROUNDABOUT == 0 && next.flags & EDGE_FLAG_ROUNDABOUT != 0),
        next.flags & EDGE_FLAG_ROUNDABOUT == 0 ==> !penalty_parts(previous, next).roundabout_entry,
        previous.flags & EDGE_FLAG_ROUNDABOUT != 0 ==> !penalty_parts(previous, next).roundabout_entry,
{
}

/// Law: of two consecutive transitions `first -> middle -> last`, at most
/// one enters a roundabout: entering at the first puts `middle` in the
/// roundabout, which rules out entering from it at the second.
pub proof fn lemma_no_two_entries_in_a_row(first: RoutingEdge, middle: RoutingEdge, last: RoutingEdge)
    ensures
        !(penalty_parts(first, middle).roundabout_entry && penalty_parts(middle, last).roundabout_entry),
{
}

/// Law: a signal is charged exactly when the edges meet and the first
/// ends at a signal; edges that do not meet incur nothing.
pub proof fn lemma_signal_and_adjacency(previous: RoutingEdge, next: RoutingEdge)
    ensures
        penalty_parts(previous, next).traffic_signal <==> (previous.to == next.from && previous.flags
            & EDGE_FLAG_TARGET_TRAFFIC_SIGNAL != 0),
        penalty_parts(previous, next).shape == TurnShape::NotAdjacent <==> previous.to != next.from,
        previous.to != next.from ==> !penalty_parts(previous, next).traffic_signal
            && !penalty_parts(previous, next).roundabout_entry,
        penalty_parts(previous, next).shape == TurnShape::UTurn <==> (previous.to == next.from && previous.from
            == next.to),
        penalty_parts(previous, next).shape == TurnShape::SameWay ==> previous.source_way_id
            == next.source_way_id,
        penalty_parts(previous, next).shape == TurnShape::BetweenWays ==> previous.source_way_id
            != next.source_way_id && previous.from != next.to,
{
}

} // verus!
