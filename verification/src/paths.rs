use vstd::prelude::*;

use crate::board::in_bounds;
use crate::tile::Tile;
use crate::tile::is_open;

verus! {

/// True when (x, y) is on the grid and the player may stand there: the
/// cell is a carved passage or the exit.
pub open spec fn open_at(s: Seq<Tile>, w: int, h: int, x: int, y: int) -> bool {
    in_bounds(w, h, x, y) && is_open(s[x + y * w])
}

/// Four-directional adjacency of two cells.
pub open spec fn adjacent1(ax: int, ay: int, bx: int, by: int) -> bool {
    (ax == bx && (ay == by + 1 || by == ay + 1)) || (ay == by && (ax == bx + 1 || bx == ax + 1))
}

/// A walk through the maze: at least one cell, every cell open, each
/// consecutive pair four-directionally adjacent.
pub open spec fn is_path(s: Seq<Tile>, w: int, h: int, p: Seq<(int, int)>) -> bool {
    &&& p.len() >= 1
    &&& forall|i: int| 0 <= i < p.len() ==> open_at(s, w, h, (#[trigger] p[i]).0, p[i].1)
    &&& forall|i: int|
        0 <= i < p.len() - 1 ==> adjacent1((#[trigger] p[i]).0, p[i].1, p[i + 1].0, p[i + 1].1)
}

/// True when some walk through open cells leads from the origin to (x, y).
pub open spec fn reachable_from_start(s: Seq<Tile>, w: int, h: int, x: int, y: int) -> bool {
    exists|p: Seq<(int, int)>|
        is_path(s, w, h, p) && p.first() == (0int, 0int) && p.last() == (x, y)
}

/// Connectivity of a maze: every open cell can be walked to from the
/// origin through open cells.
pub open spec fn maze_connected(s: Seq<Tile>, w: int, h: int) -> bool {
    forall|x: int, y: int|
        #[trigger] open_at(s, w, h, x, y) ==> reachable_from_start(s, w, h, x, y)
}

/// An open origin reaches itself by the one-cell walk.
pub proof fn lemma_reach_origin(s: Seq<Tile>, w: int, h: int)
    requires
        open_at(s, w, h, 0, 0),
    ensures
        reachable_from_start(s, w, h, 0, 0),
{
    let p = seq![(0int, 0int)];
    assert(is_path(s, w, h, p));
    assert(p.first() == (0int, 0int) && p.last() == (0int, 0int));
}

/// A reachable cell extends to any adjacent open cell: append it to the
/// witnessing walk.
pub proof fn lemma_reach_extend(s: Seq<Tile>, w: int, h: int, x: int, y: int, nx: int, ny: int)
    requires
        reachable_from_start(s, w, h, x, y),
        open_at(s, w, h, nx, ny),
        adjacent1(x, y, nx, ny),
    ensures
        reachable_from_start(s, w, h, nx, ny),
{
    let p = choose|p: Seq<(int, int)>|
        is_path(s, w, h, p) && p.first() == (0int, 0int) && p.last() == (x, y);
    let q = p.push((nx, ny));
    assert(q.last() == (nx, ny));
    assert(forall|i: int| 0 <= i < p.len() ==> q[i] == p[i]);
    assert(is_path(s, w, h, q));
}

/// Reachability survives opening further cells: the witnessing walk is
/// still a walk when every open cell stays open.
pub proof fn lemma_reach_mono(s1: Seq<Tile>, s2: Seq<Tile>, w: int, h: int, x: int, y: int)
    requires
        forall|a: int, b: int| #[trigger] open_at(s1, w, h, a, b) ==> open_at(s2, w, h, a, b),
        reachable_from_start(s1, w, h, x, y),
    ensures
        reachable_from_start(s2, w, h, x, y),
{
    let p = choose|p: Seq<(int, int)>|
        is_path(s1, w, h, p) && p.first() == (0int, 0int) && p.last() == (x, y);
    assert forall|i: int| 0 <= i < p.len() implies open_at(
        s2,
        w,
        h,
        (#[trigger] p[i]).0,
        p[i].1,
    ) by {
        assert(open_at(s1, w, h, p[i].0, p[i].1));
    }
    assert(is_path(s2, w, h, p));
}

/// Law: on a connected maze, an exit cell can always be walked to from
/// the start.
pub proof fn lemma_exit_reachable(s: Seq<Tile>, w: int, h: int, x: int, y: int)
    requires
        maze_connected(s, w, h),
        crate::board::cell_is(s, w, h, Tile::Exit, x, y),
    ensures
        reachable_from_start(s, w, h, x, y),
{
    assert(open_at(s, w, h, x, y));
}

/// Connectivity carries over to a grid with exactly the same open cells.
pub proof fn lemma_connected_same_open(s1: Seq<Tile>, s2: Seq<Tile>, w: int, h: int)
    requires
        forall|a: int, b: int| #[trigger] open_at(s1, w, h, a, b) == open_at(s2, w, h, a, b),
        maze_connected(s1, w, h),
    ensures
        maze_connected(s2, w, h),
{
    assert forall|x: int, y: int| #[trigger] open_at(s2, w, h, x, y) implies reachable_from_start(
        s2,
        w,
        h,
        x,
        y,
    ) by {
        assert(open_at(s1, w, h, x, y));
        lemma_reach_mono(s1, s2, w, h, x, y);
    }
}

} // verus!
