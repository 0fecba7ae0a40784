//! The plain values that lifts and the building exchange.

use vstd::prelude::*;

verus! {

/// One request for transport, together with whether it has boarded yet.
#[derive(Debug, PartialEq, Eq, PartialOrd, Ord, Copy, Clone, Structural)]
pub struct Passenger {
    /// The floor at which the passenger waits.
    pub from_floor: i32,
    /// The floor at which the passenger leaves the lift.
    pub to_floor: i32,
    /// `false` while waiting, `true` from boarding until being dropped off.
    pub riding: bool,
}

impl Passenger {
    /// A passenger who waits at `from_floor` and has not boarded.
    pub fn new(from_floor: i32, to_floor: i32) -> (p: Passenger)
        ensures
            p == (Passenger { from_floor, to_floor, riding: false }),
    {
        Passenger { from_floor, to_floor, riding: false }
    }

    /// The same passenger after stepping into the lift.
    pub open spec fn boarded(self) -> Passenger {
        Passenger { from_floor: self.from_floor, to_floor: self.to_floor, riding: true }
    }

    /// The way this passenger wants to travel: `Up` when the destination lies
    /// above the pickup floor, `Down` otherwise.
    pub open spec fn heading(self) -> Direction {
        if self.to_floor > self.from_floor {
            Direction::Up
        } else {
            Direction::Down
        }
    }
}

/// The number of floors between `x` and `y`.
pub open spec fn gap(x: int, y: int) -> int {
    if x > y {
        x - y
    } else {
        y - x
    }
}

/// The number of floors between two floors. The result is wide enough for any
/// pair of floors, and for the sum of two such distances.
pub fn difference(x: i32, y: i32) -> (d: i64)
    ensures
        d == gap(x as int, y as int),
        0 <= d <= u32::MAX,
{
    if x > y {
        x as i64 - y as i64
    } else {
        y as i64 - x as i64
    }
}

/// The distance between two floors does not depend on which is named first,
/// is never negative, and is zero only from a floor to itself.
pub proof fn lemma_gap_symmetric(x: int, y: int)
    ensures
        gap(x, y) == gap(y, x),
        gap(x, y) >= 0,
        gap(x, y) == 0 <==> x == y,
{
}

/// The motion state of a lift.
#[derive(Clone, Copy, Debug, PartialEq, Eq, Structural)]
pub enum Direction {
    Up,
    Down,
    /// The state of a new lift, and of one that has nothing left to do.
    Stopped,
}

/// Why a lift or the building could not do what was asked.
#[derive(Clone, Copy, Debug, PartialEq, Eq, Structural)]
pub enum LiftError {
    /// The lift's target queue is empty: the lift should go idle.
    NoTargets,
    /// The building has no lift that could take the passenger.
    NoLiftAvailable,
}

impl LiftError {
    /// A short sentence for the person at the terminal.
    pub fn message(&self) -> (text: &'static str)
        ensures
            text@ == match *self {
                LiftError::NoTargets => "There are no more targets."@,
                LiftError::NoLiftAvailable => "Could not respond to passenger."@,
            },
    {
        match self {
            LiftError::NoTargets => "There are no more targets.",
            LiftError::NoLiftAvailable => "Could not respond to passenger.",
        }
    }
}

} // verus!
