//! Things that lie on the floor.
use crate::geometry::Point;
use vstd::prelude::*;

verus! {

/// A thing at a place.
#[derive(Clone, Copy, PartialEq, Eq, Debug, Structural)]
pub struct Item {
    pub coords: Point,
}

impl Item {
    /// An item at `coords`.
    pub fn new(coords: Point) -> (item: Item)
        ensures
            item.coords == coords,
    {
        Item { coords }
    }
}

} // verus!
