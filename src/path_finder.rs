use vstd::prelude::*;

use crate::maze::{Direction, Location, Position, Wall};

verus! {

/// Why a navigator gives no move.
#[derive(Clone, Copy, Debug, PartialEq, Eq, Structural)]
pub enum NavigationError {
    /// The robot already stands on the goal cell.
    GoalReached,
    /// No open side leads to a cell with a known path to the goal.
    NoPath,
}

/// What a driving loop needs from a decision strategy.
pub trait PathFinder {
    /// The state in which `navigate` toward `goal` may be called.
    spec fn can_navigate(&self, goal: Position) -> bool;

    /// Where the navigator believes the robot is.
    spec fn location_spec(&self) -> Location;

    /// Decides the next move from the walls sensed ahead, left and right.
    fn navigate(&mut self, front: Wall, left: Wall, right: Wall, goal: Position) -> (r: Result<
        Direction,
        NavigationError,
    >)
        requires
            old(self).can_navigate(goal),
        ensures
            r == Err::<Direction, NavigationError>(NavigationError::GoalReached)
                ==> old(self).location_spec() == final(self).location_spec(),
    ;

    fn get_location(&self) -> (r: Location)
        ensures
            r == self.location_spec(),
    ;

    fn set_location(&mut self, location: Location)
        ensures
            final(self).location_spec() == location,
    ;
}

} // verus!
