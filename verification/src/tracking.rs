//! Which body the view follows.
//!
//! Every body carries an integer identifier. The tracker holds the identifier
//! of the body to follow, or `NO_TARGET` when the view is free. A user picks
//! a body by pointing: the body closest to the cursor is followed.

use crate::number::Scalar;
use crate::vector::{mag_of, vec_difference, Vec2};
use vstd::prelude::*;

verus! {

/// The tracker value that follows no body.
pub const NO_TARGET: i32 = 0;

/// A body as the view sees it: its identifier and where it is.
#[derive(Clone, Copy, Debug, PartialEq, Eq, Structural)]
pub struct Marker {
    pub id: i32,
    pub position: Vec2,
}

/// Whether `index` is the place of a body that the tracker follows.
pub open spec fn follows(tracker: i32, ids: Seq<i32>, index: int) -> bool {
    &&& tracker != NO_TARGET
    &&& 0 <= index < ids.len()
    &&& ids[index] == tracker
}

/// The distance from the cursor to the marker at `index`.
pub open spec fn distance_to(cursor: Vec2, markers: Seq<Marker>, index: int) -> Scalar {
    mag_of(vec_difference(markers[index].position, cursor))
}

/// Whether the marker at `index` is in reach: its distance from the cursor
/// is defined.
pub open spec fn in_reach(cursor: Vec2, markers: Seq<Marker>, index: int) -> bool {
    0 <= index < markers.len() && distance_to(cursor, markers, index).is_finite()
}

/// Whether the marker at `index` is the closest to the cursor: it is in
/// reach, every earlier marker in reach is farther, and no later one is
/// nearer.
pub open spec fn is_closest(cursor: Vec2, markers: Seq<Marker>, index: int) -> bool {
    &&& in_reach(cursor, markers, index)
    &&& forall|earlier: int|
        0 <= earlier < index && in_reach(cursor, markers, earlier) ==> distance_to(
            cursor,
            markers,
            index,
        ).scaled_value() < distance_to(cursor, markers, earlier).scaled_value()
    &&& forall|later: int|
        index < later && in_reach(cursor, markers, later) ==> distance_to(
            cursor,
            markers,
            index,
        ).scaled_value() <= distance_to(cursor, markers, later).scaled_value()
}

/// Whether no marker is in reach of the cursor.
pub open spec fn none_in_reach(cursor: Vec2, markers: Seq<Marker>) -> bool {
    forall|index: int| !in_reach(cursor, markers, index)
}

/// Finds the body that the view follows.
///
/// Where several bodies carry the tracked identifier the last of them wins,
/// as each match in turn moves the view. The result is `None` exactly when
/// the tracker is `NO_TARGET` or no body carries its identifier.
pub fn tracked_index(tracker: i32, ids: &Vec<i32>) -> (r: Option<usize>)
    ensures
        match r {
            Some(index) => {
                &&& follows(tracker, ids@, index as int)
                &&& forall|later: int| index < later < ids@.len() ==> ids@[later] != tracker
            },
            None => forall|index: int| !follows(tracker, ids@, index),
        },
{
    if tracker == NO_TARGET {
        return None;
    }
    let mut found: Option<usize> = None;
    let mut at: usize = 0;
    while at < ids.len()
        invariant
            at <= ids@.len(),
            tracker != NO_TARGET,
            match found {
                Some(index) => {
                    &&& index < at
                    &&& ids@[index as int] == tracker
                    &&& forall|later: int| index < later < at ==> ids@[later] != tracker
                },
                None => forall|index: int| 0 <= index < at ==> ids@[index] != tracker,
            },
        decreases ids@.len() - at,
    {
        if ids[at] == tracker {
            found = Some(at);
        }
        at = at + 1;
    }
    found
}

/// Finds the marker closest to the cursor; of several equally close, the
/// first. Markers out of reach are passed over.
pub fn closest_marker(cursor: Vec2, markers: &Vec<Marker>) -> (r: Option<usize>)
    ensures
        match r {
            Some(index) => is_closest(cursor, markers@, index as int),
            None => none_in_reach(cursor, markers@),
        },
{
    let mut found: Option<usize> = None;
    let mut best: Scalar = Scalar::undefined();
    let mut at: usize = 0;
    while at < markers.len()
        invariant
            at <= markers@.len(),
            match found {
                Some(index) => {
                    &&& index < at
                    &&& best == distance_to(cursor, markers@, index as int)
                    &&& best.is_finite()
                    &&& forall|earlier: int|
                        0 <= earlier < index && in_reach(cursor, markers@, earlier)
                            ==> best.scaled_value() < distance_to(
                            cursor,
                            markers@,
                            earlier,
                        ).scaled_value()
                    &&& forall|later: int|
                        index < later < at && in_reach(cursor, markers@, later)
                            ==> best.scaled_value() <= distance_to(
                            cursor,
                            markers@,
                            later,
                        ).scaled_value()
                },
                None => forall|index: int| 0 <= index < at ==> !in_reach(cursor, markers@, index),
            },
        decreases markers@.len() - at,
    {
        let distance: Scalar = markers[at].position.minus(cursor).mag();
        let nearer: bool = match found {
            Some(_) => distance.less_than(best),
            None => distance.finite(),
        };
        if nearer {
            found = Some(at);
            best = distance;
        }
        at = at + 1;
    }
    found
}

/// At most one marker is the closest to the cursor.
pub proof fn lemma_closest_is_unique(cursor: Vec2, markers: Seq<Marker>, first: int, second: int)
    requires
        is_closest(cursor, markers, first),
        is_closest(cursor, markers, second),
    ensures
        first == second,
{
}

/// The tracker after a request to follow the body closest to the cursor: the
/// identifier of that body, or `NO_TARGET` where no body is in reach.
pub fn select_target(cursor: Vec2, markers: &Vec<Marker>) -> (tracker: i32)
    ensures
        none_in_reach(cursor, markers@) ==> tracker == NO_TARGET,
        forall|index: int| is_closest(cursor, markers@, index) ==> tracker == markers@[index].id,
{
    match closest_marker(cursor, markers) {
        Some(index) => {
            proof {
                assert forall|other: int| is_closest(cursor, markers@, other) implies other
                    == index by {
                    lemma_closest_is_unique(cursor, markers@, other, index as int);
                }
            }
            markers[index].id
        },
        None => NO_TARGET,
    }
}

} // verus!
