use vstd::prelude::*;

verus! {

/// Classification of one grid cell: a solid wall, an open passage,
/// or the single exit cell of a finished maze.
#[derive(Clone, Copy, PartialEq, Eq, Structural, Debug)]
pub enum Tile {
    Wall,
    Empty,
    Exit,
}

/// A cell a player may stand on: a carved passage or the exit.
pub open spec fn is_open(t: Tile) -> bool {
    t == Tile::Empty || t == Tile::Exit
}

} // verus!
