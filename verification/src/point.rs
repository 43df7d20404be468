//! Fixes of a flight, projected onto the plane.

use vstd::prelude::*;

verus! {

/// The largest altitude loss, in metres, that the rules allow between the
/// start and the finish of a task.
pub const MAX_ALTITUDE_LOSS: i32 = 1000;

/// One fix of a flight: its position on the plane, in a length unit of the
/// caller's choice, and its altitude in metres.
#[derive(Clone, Copy, Debug, PartialEq, Eq, Structural)]
pub struct Point {
    pub x: i32,
    pub y: i32,
    pub altitude: i16,
}

/// Whether a task that starts at `start` may finish at `finish`: the finish
/// lies at most `MAX_ALTITUDE_LOSS` metres below the start.
pub open spec fn altitude_rule(start: Point, finish: Point) -> bool {
    start.altitude - finish.altitude <= MAX_ALTITUDE_LOSS
}

/// Tests the altitude rule on a start and a finish.
pub fn complies(start: &Point, finish: &Point) -> (ok: bool)
    ensures
        ok == altitude_rule(*start, *finish),
{
    let loss: i32 = start.altitude as i32 - finish.altitude as i32;
    loss <= MAX_ALTITUDE_LOSS
}

/// The finish of the path lies at most `MAX_ALTITUDE_LOSS` metres below its
/// start.
pub open spec fn keeps_altitude_rule(points: Seq<Point>, p: Seq<usize>) -> bool {
    altitude_rule(points[p.first() as int], points[p.last() as int])
}

/// Tests the altitude rule on a path through the fixes of a flight.
pub fn validate(points: &[Point], path: &[usize]) -> (ok: bool)
    requires
        path@.len() >= 1,
        path@.first() < points@.len(),
        path@.last() < points@.len(),
    ensures
        ok == keeps_altitude_rule(points@, path@),
{
    complies(&points[path[0]], &points[path[path.len() - 1]])
}

} // verus!
