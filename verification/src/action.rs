use vstd::prelude::*;

verus! {

/// A square of the board: `x` is the column (0..9), `y` the row (0..10).
#[derive(Clone, Copy, Debug, PartialEq, Eq, Structural)]
pub struct Coord {
    pub x: u8,
    pub y: u8,
}

impl Coord {
    /// The square at column `x`, row `y`.
    pub fn new(x: u8, y: u8) -> (c: Coord)
        ensures
            c == (Coord { x, y }),
    {
        Coord { x: x, y: y }
    }
}

/// A move of the piece on `src` to `tar`; `removed` is what stood on `tar`
/// before the move (0 for an empty square), filled in when the move is made.
#[derive(Clone, Copy, Debug, PartialEq, Eq, Structural)]
pub struct Action {
    pub src: Coord,
    pub tar: Coord,
    pub removed: i8,
}

impl Action {
    /// The move from `(x1, y1)` to `(x2, y2)`, with nothing removed yet.
    pub fn new(x1: u8, y1: u8, x2: u8, y2: u8) -> (a: Action)
        ensures
            a == (Action { src: Coord { x: x1, y: y1 }, tar: Coord { x: x2, y: y2 }, removed: 0 }),
    {
        Action { src: Coord::new(x1, y1), tar: Coord::new(x2, y2), removed: 0 }
    }

    /// Overwrites this move with a copy of `value`.
    pub fn from(&mut self, value: &Action)
        ensures
            *final(self) == *value,
    {
        let tmp = &value.src;
        self.src = *tmp;
        let tmp = &value.tar;
        self.tar = *tmp;
        self.removed = value.removed;
    }
}

} // verus!
