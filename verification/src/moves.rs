use vstd::prelude::*;

use crate::board::Board;
use crate::board::Coord;
use crate::board::tile_at;
use crate::tile::Tile;

verus! {

/// One of the four directional move commands.
#[derive(Clone, Copy, PartialEq, Eq, Structural, Debug)]
pub enum Dir {
    Up,
    Down,
    Left,
    Right,
}

/// The cell a move from p would step onto, or None when the step would
/// leave the unsigned coordinate domain or the grid.
pub open spec fn move_target(size: Coord, p: Coord, d: Dir) -> Option<Coord> {
    match d {
        Dir::Up => if p.y >= 1 && p.y - 1 < size.y {
            Some(Coord { x: p.x, y: (p.y - 1) as usize })
        } else {
            None
        },
        Dir::Down => if p.y + 1 < size.y {
            Some(Coord { x: p.x, y: (p.y + 1) as usize })
        } else {
            None
        },
        Dir::Left => if p.x >= 1 && p.x - 1 < size.x {
            Some(Coord { x: (p.x - 1) as usize, y: p.y })
        } else {
            None
        },
        Dir::Right => if p.x + 1 < size.x {
            Some(Coord { x: (p.x + 1) as usize, y: p.y })
        } else {
            None
        },
    }
}

/// One transition of the movement state machine: a rejected step leaves
/// the state alone; a step onto the exit latches the win flag; a step
/// onto any non-wall tile moves the player.
pub open spec fn step(tiles: Seq<Tile>, size: Coord, p: Coord, done: bool, d: Dir) -> (
    Coord,
    bool,
) {
    match move_target(size, p, d) {
        None => (p, done),
        Some(q) => {
            let t = tile_at(tiles, size.x as int, size.y as int, q.x as int, q.y as int);
            ((if t != Tile::Wall {
                q
            } else {
                p
            }), done || t == Tile::Exit)
        },
    }
}

/// The state after a whole sequence of move commands, applied in order.
pub open spec fn run_moves(
    tiles: Seq<Tile>,
    size: Coord,
    p: Coord,
    done: bool,
    ds: Seq<Dir>,
) -> (Coord, bool)
    decreases ds.len(),
{
    if ds.len() == 0 {
        (p, done)
    } else {
        let s1 = step(tiles, size, p, done, ds[0]);
        run_moves(tiles, size, s1.0, s1.1, ds.drop_first())
    }
}

/// Law: once the game is done, no sequence of further moves sets the win
/// flag back to false.
pub proof fn lemma_done_monotone(tiles: Seq<Tile>, size: Coord, p: Coord, ds: Seq<Dir>)
    ensures
        run_moves(tiles, size, p, true, ds).1,
    decreases ds.len(),
{
    if ds.len() != 0 {
        let s1 = step(tiles, size, p, true, ds[0]);
        lemma_done_monotone(tiles, size, s1.0, ds.drop_first());
    }
}

/// Law: a move up or left from the origin is rejected outright: the
/// player stays at the origin and the win flag keeps its value.
pub proof fn lemma_boundary_rejection(tiles: Seq<Tile>, size: Coord, done: bool)
    ensures
        step(tiles, size, (Coord { x: 0usize, y: 0usize }), done, Dir::Up) == ((Coord {
            x: 0usize,
            y: 0usize,
        }), done),
        step(tiles, size, (Coord { x: 0usize, y: 0usize }), done, Dir::Left) == ((Coord {
            x: 0usize,
            y: 0usize,
        }), done),
{
}

impl Board {
    /// Moves the player up if not blocked by walls or edges.
    pub fn move_player_up(&mut self)
        requires
            old(self).wf(),
        ensures
            final(self).wf(),
            final(self).tiles() == old(self).tiles(),
            final(self).size == old(self).size,
            final(self).spec_start() == old(self).spec_start(),
            (final(self).player_pos, final(self).game_done) == step(
                old(self).tiles(),
                old(self).size,
                old(self).player_pos,
                old(self).game_done,
                Dir::Up,
            ),
            old(self).game_done ==> final(self).game_done,
    {
        if self.player_pos.y == 0 {
            return;
        }
        let new_y: usize = self.player_pos.y - 1;
        if new_y < self.size.y {
            let new_tile = self.get(self.player_pos.x, new_y);
            if new_tile == Tile::Exit {
                self.game_done = true;
            }
            if new_tile != Tile::Wall {
                self.player_pos.y = new_y;
            }
        }
    }

    /// Moves the player down if not blocked by walls or edges.
    pub fn move_player_down(&mut self)
        requires
            old(self).wf(),
        ensures
            final(self).wf(),
            final(self).tiles() == old(self).tiles(),
            final(self).size == old(self).size,
            final(self).spec_start() == old(self).spec_start(),
            (final(self).player_pos, final(self).game_done) == step(
                old(self).tiles(),
                old(self).size,
                old(self).player_pos,
                old(self).game_done,
                Dir::Down,
            ),
            old(self).game_done ==> final(self).game_done,
    {
        let new_y: usize = self.player_pos.y + 1;
        if new_y < self.size.y {
            let new_tile = self.get(self.player_pos.x, new_y);
            if new_tile == Tile::Exit {
                self.game_done = true;
            }
            if new_tile != Tile::Wall {
                self.player_pos.y = new_y;
            }
        }
    }

    /// Moves the player left if not blocked by walls or edges.
    pub fn move_player_left(&mut self)
        requires
            old(self).wf(),
        ensures
            final(self).wf(),
            final(self).tiles() == old(self).tiles(),
            final(self).size == old(self).size,
            final(self).spec_start() == old(self).spec_start(),
            (final(self).player_pos, final(self).game_done) == step(
                old(self).tiles(),
                old(self).size,
                old(self).player_pos,
                old(self).game_done,
                Dir::Left,
            ),
            old(self).game_done ==> final(self).game_done,
    {
        if self.player_pos.x == 0 {
            return;
        }
        let new_x: usize = self.player_pos.x - 1;
        if new_x < self.size.x {
            let new_tile = self.get(new_x, self.player_pos.y);
            if new_tile == Tile::Exit {
                self.game_done = true;
            }
            if new_tile != Tile::Wall {
                self.player_pos.x = new_x;
            }
        }
    }

    /// Moves the player right if not blocked by walls or edges.
    pub fn move_player_right(&mut self)
        requires
            old(self).wf(),
        ensures
            final(self).wf(),
            final(self).tiles() == old(self).tiles(),
            final(self).size == old(self).size,
            final(self).spec_start() == old(self).spec_start(),
            (final(self).player_pos, final(self).game_done) == step(
                old(self).tiles(),
                old(self).size,
                old(self).player_pos,
                old(self).game_done,
                Dir::Right,
            ),
            old(self).game_done ==> final(self).game_done,
    {
        let new_x: usize = self.player_pos.x + 1;
        if new_x < self.size.x {
            let new_tile = self.get(new_x, self.player_pos.y);
            if new_tile == Tile::Exit {
                self.game_done = true;
            }
            if new_tile != Tile::Wall {
                self.player_pos.x = new_x;
            }
        }
    }
}

} // verus!
