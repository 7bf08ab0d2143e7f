use vstd::prelude::*;

verus! {

/// What a single cell of a maze holds.
#[derive(Debug, PartialEq, Eq, Structural, Copy, Clone)]
pub enum Room {
    Empty,
    Wall,
    Home(u16),
    Goal(u16),
}

/// A maze that can be asked what lies at a coordinate.
///
/// Implementations answer every coordinate: when out of bounds they return
/// `Room::Wall` instead of panicking. The answer is a function of the
/// coordinate alone, named by `room_at`.
pub trait Maze {
    /// The room that `get` reports at `(x, y)`.
    spec fn room_at(&self, x: isize, y: isize) -> Room;

    /// When out of bounds, return `Room::Wall` instead of panicking.
    fn get(&self, x: isize, y: isize) -> (r: Room)
        ensures
            r == self.room_at(x, y),
    ;
}

} // verus!
