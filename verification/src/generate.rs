use vstd::prelude::*;

use crate::board::Board;
use crate::board::Coord;
use crate::board::adjacent_seq;
use crate::board::cell_is;
use crate::board::in_bounds;
use crate::board::lemma_adjacent_seq_props;
use crate::board::lemma_index_in_range;
use crate::board::lemma_index_injective;
use crate::board::passage_mid;
use crate::board::passage_tiles;
use crate::board::set_tile;
use crate::board::tile_at;
use crate::counting::edge_count;
use crate::counting::lemma_counts_all_closed;
use crate::counting::lemma_counts_same_open;
use crate::counting::lemma_open_cell_counts;
use crate::counting::lemma_open_count_bounds;
use crate::counting::lemma_update_open_at;
use crate::counting::nbr_open;
use crate::counting::open_count;
use crate::counting::spanning_tree_counts;
use crate::paths::adjacent1;
use crate::paths::lemma_connected_same_open;
use crate::paths::lemma_reach_extend;
use crate::paths::lemma_reach_mono;
use crate::paths::lemma_reach_origin;
use crate::paths::maze_connected;
use crate::paths::open_at;
use crate::paths::reachable_from_start;
use crate::tile::Tile;
use crate::tile::is_open;

verus! {

/// Relies on rand::random_range over `0..n`: a uniformly random value in
/// the half-open range, so strictly below the bound; it panics only on an
/// empty range, which the precondition rules out.
#[verifier::external_body]
fn random_below(n: usize) -> (r: usize)
    requires
        1 <= n,
    ensures
        r < n,
{
    rand::random_range(0..n)
}

/// True when some direct neighbor of (x, y) is an open cell.
pub open spec fn has_open_nbr(s: Seq<Tile>, w: int, h: int, x: int, y: int) -> bool {
    ||| open_at(s, w, h, x + 1, y)
    ||| open_at(s, w, h, x - 1, y)
    ||| open_at(s, w, h, x, y + 1)
    ||| open_at(s, w, h, x, y - 1)
}

/// Exactly one cell of the grid holds the Exit tile.
pub open spec fn unique_exit(s: Seq<Tile>) -> bool {
    &&& exists|i: int| 0 <= i < s.len() && (#[trigger] s[i]) == Tile::Exit
    &&& forall|i: int, j: int|
        0 <= i < s.len() && 0 <= j < s.len() && (#[trigger] s[i]) == Tile::Exit && (
        #[trigger] s[j]) == Tile::Exit ==> i == j
}

/// Invariant on one frontier entry during generation: on the grid, on the
/// even room lattice, not the start cell, and either still a wall or --
/// when a later carve opened it -- touching a carved cell directly.
pub open spec fn frontier_entry_ok(s: Seq<Tile>, w: int, h: int, c: Coord) -> bool {
    &&& in_bounds(w, h, c.x as int, c.y as int)
    &&& c.x % 2 == 0
    &&& c.y % 2 == 0
    &&& !(c.x == 0 && c.y == 0)
    &&& (s[c.x + c.y * w] == Tile::Wall || has_open_nbr(s, w, h, c.x as int, c.y as int))
}

/// The grid-state invariant of the generation loop: the origin is carved,
/// no exit exists yet, nothing open sits on the odd-odd lattice, every
/// open cell is reachable from the origin, and the carved region with its
/// connections forms a tree.
pub open spec fn gen_grid_inv(s: Seq<Tile>, w: int, h: int) -> bool {
    &&& s.len() == w * h
    &&& open_at(s, w, h, 0, 0)
    &&& forall|i: int| 0 <= i < s.len() ==> (#[trigger] s[i]) != Tile::Exit
    &&& forall|x: int, y: int| #[trigger] open_at(s, w, h, x, y) ==> !(x % 2 == 1 && y % 2 == 1)
    &&& maze_connected(s, w, h)
    &&& open_count(s, w, h) - edge_count(s, w, h) == 1
}

/// A grid untouched since the start cell was carved: the origin is empty
/// and every other cell is still a wall.
pub open spec fn pristine(s: Seq<Tile>, w: int, h: int) -> bool {
    forall|x: int, y: int|
        in_bounds(w, h, x, y) ==> #[trigger] tile_at(s, w, h, x, y) == (if x == 0 && y == 0 {
            Tile::Empty
        } else {
            Tile::Wall
        })
}

/// Stepping by one or two keeps or flips evenness as expected.
proof fn lemma_mod2_step(a: int)
    requires
        a % 2 == 0,
    ensures
        (a + 1) % 2 == 1,
        (a - 1) % 2 == 1,
        (a + 2) % 2 == 0,
        (a - 2) % 2 == 0,
{
}

/// A cell that is not empty, on a grid with no exit yet, is not open.
proof fn lemma_closed_cell(s: Seq<Tile>, w: int, h: int, x: int, y: int)
    requires
        s.len() == w * h,
        forall|i: int| 0 <= i < s.len() ==> (#[trigger] s[i]) != Tile::Exit,
        !cell_is(s, w, h, Tile::Empty, x, y),
    ensures
        !open_at(s, w, h, x, y),
{
    if in_bounds(w, h, x, y) {
        lemma_index_in_range(w, h, x, y);
    }
}

/// The geometry of a carve: the empty room sits at exact axis offset two
/// from the wall candidate.
pub open spec fn carve_offset(cell: Coord, wall: Coord) -> bool {
    ||| (cell.x == wall.x + 2 && cell.y == wall.y)
    ||| (cell.x + 2 == wall.x && cell.y == wall.y)
    ||| (cell.x == wall.x && cell.y == wall.y + 2)
    ||| (cell.x == wall.x && cell.y + 2 == wall.y)
}

/// What one carve leaves behind: every loop invariant still holds,
/// exactly the candidate and the cell between it and the room were
/// opened, and the open-cell and connection counts each grew by two.
pub open spec fn carve_outcome(s: Seq<Tile>, w: int, h: int, cell: Coord, wall: Coord) -> bool {
    let s3 = passage_tiles(s, w, h, cell, wall);
    let m = passage_mid(cell, wall).unwrap();
    &&& passage_mid(cell, wall) is Some
    &&& !(m.x % 2 == 0 && m.y % 2 == 0)
    &&& gen_grid_inv(s3, w, h)
    &&& open_count(s3, w, h) == open_count(s, w, h) + 2
    &&& forall|i: int|
        0 <= i < w * h ==> (#[trigger] s3[i]) == (if i == m.x + m.y * w || i == wall.x + wall.y
            * w {
            Tile::Empty
        } else {
            s[i]
        })
    &&& forall|a: int, b: int|
        #[trigger] open_at(s3, w, h, a, b) == (open_at(s, w, h, a, b) || (a == m.x && b == m.y)
            || (a == wall.x && b == wall.y))
}

/// One carve of the generation loop, done on the grid alone: carving a
/// two-cell passage from an empty room to a wall candidate that touches
/// no open cell keeps every loop invariant, opens exactly the candidate
/// and the cell between, and adds one open cell and one connection twice
/// over, so the carved region stays a tree.
proof fn lemma_carve_step(s: Seq<Tile>, w: int, h: int, cell: Coord, wall: Coord)
    requires
        gen_grid_inv(s, w, h),
        w >= 1,
        h >= 1,
        in_bounds(w, h, wall.x as int, wall.y as int),
        wall.x % 2 == 0,
        wall.y % 2 == 0,
        !has_open_nbr(s, w, h, wall.x as int, wall.y as int),
        s[wall.x + wall.y * w] == Tile::Wall,
        cell_is(s, w, h, Tile::Empty, cell.x as int, cell.y as int),
        carve_offset(cell, wall),
    ensures
        carve_outcome(s, w, h, cell, wall),
{
    let wx = wall.x as int;
    let wy = wall.y as int;
    let cx = cell.x as int;
    let cy = cell.y as int;
    lemma_index_in_range(w, h, wx, wy);
    lemma_index_in_range(w, h, cx, cy);
    lemma_mod2_step(wx);
    lemma_mod2_step(wy);
    let m = passage_mid(cell, wall).unwrap();
    let mx = m.x as int;
    let my = m.y as int;
    if cell.x == wall.x + 2 && cell.y == wall.y {
        assert(mx == wx + 1 && my == wy);
        assert(open_at(s, w, h, mx + 1, my));
        assert(!open_at(s, w, h, mx, my + 1));
        assert(!open_at(s, w, h, mx, my - 1));
        assert(nbr_open(s, w, h, mx, my) == 1);
    } else if cell.x + 2 == wall.x && cell.y == wall.y {
        assert(mx == wx - 1 && my == wy);
        assert(open_at(s, w, h, mx - 1, my));
        assert(!open_at(s, w, h, mx, my + 1));
        assert(!open_at(s, w, h, mx, my - 1));
        assert(nbr_open(s, w, h, mx, my) == 1);
    } else if cell.x == wall.x && cell.y == wall.y + 2 {
        assert(mx == wx && my == wy + 1);
        assert(open_at(s, w, h, mx, my + 1));
        assert(!open_at(s, w, h, mx + 1, my));
        assert(!open_at(s, w, h, mx - 1, my));
        assert(nbr_open(s, w, h, mx, my) == 1);
    } else {
        assert(mx == wx && my == wy - 1);
        assert(open_at(s, w, h, mx, my - 1));
        assert(!open_at(s, w, h, mx + 1, my));
        assert(!open_at(s, w, h, mx - 1, my));
        assert(nbr_open(s, w, h, mx, my) == 1);
    }
    assert(in_bounds(w, h, mx, my));
    assert(adjacent1(cx, cy, mx, my));
    assert(adjacent1(mx, my, wx, wy));
    assert(!(m.x % 2 == 0 && m.y % 2 == 0));
    assert(!open_at(s, w, h, mx, my));
    lemma_index_in_range(w, h, mx, my);
    if cx + cy * w == mx + my * w {
        lemma_index_injective(w, h, cx, cy, mx, my);
    }
    if wx + wy * w == mx + my * w {
        lemma_index_injective(w, h, wx, wy, mx, my);
    }
    let s1 = set_tile(s, w, h, m, Tile::Empty);
    assert(s1 == s.update(mx + my * w, Tile::Empty));
    lemma_update_open_at(s, w, h, mx, my, Tile::Empty);
    lemma_open_cell_counts(s, w, h, mx, my, Tile::Empty);
    let s2 = set_tile(s1, w, h, cell, Tile::Empty);
    assert(s1[cx + cy * w] == Tile::Empty);
    assert(s2 =~= s1);
    let s3 = set_tile(s2, w, h, wall, Tile::Empty);
    assert(s3 == s1.update(wx + wy * w, Tile::Empty));
    assert(s1[wx + wy * w] == Tile::Wall);
    assert(!open_at(s1, w, h, wx, wy));
    assert(nbr_open(s1, w, h, wx, wy) == 1);
    lemma_update_open_at(s1, w, h, wx, wy, Tile::Empty);
    lemma_open_cell_counts(s1, w, h, wx, wy, Tile::Empty);
    assert(s3 == passage_tiles(s, w, h, cell, wall));
    assert forall|a: int, b: int|
        #[trigger] open_at(s3, w, h, a, b) == (open_at(s, w, h, a, b) || (a == m.x && b == m.y) || (
        a == wall.x && b == wall.y)) by {
        assert(open_at(s3, w, h, a, b) == (open_at(s1, w, h, a, b) || (a == wx && b == wy)));
        assert(open_at(s1, w, h, a, b) == (open_at(s, w, h, a, b) || (a == mx && b == my)));
    }
    assert forall|i: int|
        0 <= i < w * h implies (#[trigger] s3[i]) == (if i == mx + my * w || i == wx + wy * w {
        Tile::Empty
    } else {
        s[i]
    }) by {}
    // connectivity: reach the already-carved room, then the new cells
    assert(open_at(s, w, h, cx, cy));
    assert(reachable_from_start(s, w, h, cx, cy));
    lemma_reach_mono(s, s3, w, h, cx, cy);
    lemma_reach_extend(s3, w, h, cx, cy, mx, my);
    lemma_reach_extend(s3, w, h, mx, my, wx, wy);
    assert forall|a: int, b: int| #[trigger] open_at(s3, w, h, a, b) implies reachable_from_start(
        s3,
        w,
        h,
        a,
        b,
    ) by {
        if open_at(s, w, h, a, b) {
            lemma_reach_mono(s, s3, w, h, a, b);
        }
    }
    assert(open_at(s3, w, h, 0, 0));
    assert(gen_grid_inv(s3, w, h));
}

/// Uses a randomized version of Prim's minimum-spanning-tree algorithm to
/// generate a maze: carve the start cell, then repeatedly pull a random
/// wall candidate off the frontier and, when it extends exactly one
/// carved room, open a two-cell passage to it; the last carved candidate
/// becomes the exit.
pub fn generate_board(board: &mut Board)
    requires
        old(board).wf(),
        forall|i: int|
            0 <= i < old(board).tiles().len() ==> (#[trigger] old(board).tiles()[i]) == Tile::Wall,
    ensures
        final(board).wf(),
        final(board).size == old(board).size,
        final(board).player_pos == old(board).player_pos,
        final(board).game_done == old(board).game_done,
        final(board).spec_start() == old(board).spec_start(),
        maze_connected(final(board).tiles(), final(board).width(), final(board).height()),
        spanning_tree_counts(final(board).tiles(), final(board).width(), final(board).height()),
        unique_exit(final(board).tiles()),
        is_open(final(board).spec_tile(0, 0)),
        final(board).width() >= 3 || final(board).height() >= 3 ==> final(board).spec_tile(0, 0)
            == Tile::Empty,
{
    let ghost w: int = old(board).width();
    let ghost h: int = old(board).height();
    let ghost s_init = old(board).tiles();

    let sx: usize = board.start_pos.x;
    let sy: usize = board.start_pos.y;
    board.set(sx, sy, Tile::Empty);

    proof {
        assert forall|a: int, b: int| !(#[trigger] open_at(s_init, w, h, a, b)) by {
            if in_bounds(w, h, a, b) {
                lemma_index_in_range(w, h, a, b);
                assert(s_init[a + b * w] == Tile::Wall);
            }
        }
        lemma_counts_all_closed(s_init, w, h, h);
        lemma_update_open_at(s_init, w, h, 0, 0, Tile::Empty);
        lemma_open_cell_counts(s_init, w, h, 0, 0, Tile::Empty);
        assert(board.tiles() == s_init.update(0, Tile::Empty));
        assert(nbr_open(s_init, w, h, 0, 0) == 0);
        assert(open_at(board.tiles(), w, h, 0, 0));
        assert forall|x: int, y: int| #[trigger]
            open_at(board.tiles(), w, h, x, y) implies reachable_from_start(
            board.tiles(),
            w,
            h,
            x,
            y,
        ) by {
            assert(x == 0 && y == 0);
            lemma_reach_origin(board.tiles(), w, h);
        }
        assert forall|x: int, y: int| in_bounds(w, h, x, y) implies #[trigger] tile_at(
            board.tiles(),
            w,
            h,
            x,
            y,
        ) == (if x == 0 && y == 0 {
            Tile::Empty
        } else {
            Tile::Wall
        }) by {
            lemma_index_in_range(w, h, x, y);
            if x + y * w == 0 {
                lemma_index_injective(w, h, x, y, 0, 0);
            } else {
                assert(s_init[x + y * w] == Tile::Wall);
            }
        }
        assert(pristine(board.tiles(), w, h));
        assert(gen_grid_inv(board.tiles(), w, h));
    }

    let mut walls: Vec<Coord> = board.get_adjacent_walls(sx, sy);
    let mut last_wall = Coord::new(sx, sy);
    let ghost init_walls = walls@;

    proof {
        lemma_adjacent_seq_props(board.tiles(), w, h, Tile::Wall, 0, 0, 2);
        assert forall|k: int| 0 <= k < init_walls.len() implies ((#[trigger] init_walls[k])
            == (Coord { x: 2usize, y: 0usize }) || init_walls[k] == (Coord {
            x: 0usize,
            y: 2usize,
        })) by {
            let c = init_walls[k];
            assert(cell_is(board.tiles(), w, h, Tile::Wall, c.x as int, c.y as int));
        }
        assert forall|k: int| 0 <= k < walls@.len() implies frontier_entry_ok(
            board.tiles(),
            w,
            h,
            #[trigger] walls@[k],
        ) by {
            let c = walls@[k];
            assert(cell_is(board.tiles(), w, h, Tile::Wall, c.x as int, c.y as int));
        }
        if w >= 3 {
            assert(tile_at(board.tiles(), w, h, 2, 0) == Tile::Wall);
            assert(cell_is(board.tiles(), w, h, Tile::Wall, 2int, 0int));
            assert(init_walls.len() >= 1);
        }
        if h >= 3 {
            assert(tile_at(board.tiles(), w, h, 0, 2) == Tile::Wall);
            assert(cell_is(board.tiles(), w, h, Tile::Wall, 0int, 2int));
            assert(init_walls.len() >= 1);
        }
        lemma_open_count_bounds(board.tiles(), w, h, h);
        assert(h * w == w * h) by (nonlinear_arith);
    }

    while walls.len() > 0
        invariant
            board.wf(),
            board.size == old(board).size,
            board.player_pos == old(board).player_pos,
            board.game_done == old(board).game_done,
            board.spec_start() == old(board).spec_start(),
            w == board.width(),
            h == board.height(),
            w >= 1,
            h >= 1,
            gen_grid_inv(board.tiles(), w, h),
            0 <= open_count(board.tiles(), w, h) <= w * h,
            forall|k: int|
                0 <= k < walls@.len() ==> frontier_entry_ok(
                    board.tiles(),
                    w,
                    h,
                    #[trigger] walls@[k],
                ),
            in_bounds(w, h, last_wall.x as int, last_wall.y as int),
            last_wall.x % 2 == 0,
            last_wall.y % 2 == 0,
            forall|k: int|
                0 <= k < init_walls.len() ==> ((#[trigger] init_walls[k]) == (Coord {
                    x: 2usize,
                    y: 0usize,
                }) || init_walls[k] == (Coord { x: 0usize, y: 2usize })),
            (w >= 3 || h >= 3) ==> init_walls.len() >= 1,
            if last_wall == (Coord { x: 0usize, y: 0usize }) {
                pristine(board.tiles(), w, h) && walls@ == init_walls
            } else {
                board.tiles()[last_wall.x + last_wall.y * w] == Tile::Empty
            },
        decreases 5 * (w * h - open_count(board.tiles(), w, h)) + walls@.len(),
    {
        let ghost pre_walls = walls@;
        let i: usize = random_below(walls.len());
        let wall = walls.remove(i);
        proof {
            assert(wall == pre_walls[i as int]);
            assert(frontier_entry_ok(board.tiles(), w, h, wall));
            assert forall|k: int| 0 <= k < walls@.len() implies frontier_entry_ok(
                board.tiles(),
                w,
                h,
                #[trigger] walls@[k],
            ) by {
                if k < i {
                    assert(walls@[k] == pre_walls[k]);
                } else {
                    assert(walls@[k] == pre_walls[k + 1]);
                }
            }
        }
        let ghost s = board.tiles();
        let cells = board.get_adjacent_empty(wall.x, wall.y);
        let conns = board.get_adjacent_connections(wall.x, wall.y);
        if cells.len() > 0 && conns.len() < 1 {
            let j: usize = random_below(cells.len());
            let cell: Coord = cells[j];
            proof {
                let wx = wall.x as int;
                let wy = wall.y as int;
                // an empty frontier of direct connections: no open neighbor at all
                assert(!cell_is(s, w, h, Tile::Empty, wx + 1, wy));
                assert(!cell_is(s, w, h, Tile::Empty, wx - 1, wy));
                assert(!cell_is(s, w, h, Tile::Empty, wx, wy + 1));
                assert(!cell_is(s, w, h, Tile::Empty, wx, wy - 1));
                lemma_closed_cell(s, w, h, wx + 1, wy);
                lemma_closed_cell(s, w, h, wx - 1, wy);
                lemma_closed_cell(s, w, h, wx, wy + 1);
                lemma_closed_cell(s, w, h, wx, wy - 1);
                assert(!has_open_nbr(s, w, h, wx, wy));
                assert(s[wall.x + wall.y * w] == Tile::Wall);
                lemma_adjacent_seq_props(s, w, h, Tile::Empty, wall.x, wall.y, 2);
                assert(cell == adjacent_seq(s, w, h, Tile::Empty, wall.x, wall.y, 2)[j as int]);
                lemma_carve_step(s, w, h, cell, wall);
            }
            board.make_passage(cell, wall);
            last_wall = wall;
            let mut more = board.get_adjacent_walls(wall.x, wall.y);
            proof {
                let s3 = board.tiles();
                let m = passage_mid(cell, wall).unwrap();
                lemma_mod2_step(wall.x as int);
                lemma_mod2_step(wall.y as int);
                // remaining frontier entries keep their invariant on the carved grid
                assert forall|k: int| 0 <= k < walls@.len() implies frontier_entry_ok(
                    s3,
                    w,
                    h,
                    #[trigger] walls@[k],
                ) by {
                    let c = walls@[k];
                    assert(frontier_entry_ok(s, w, h, c));
                    lemma_index_in_range(w, h, c.x as int, c.y as int);
                    if c.x + c.y * w == m.x + m.y * w {
                        lemma_index_injective(w, h, c.x as int, c.y as int, m.x as int, m.y as int);
                        assert(false);
                    }
                    if c.x + c.y * w == wall.x + wall.y * w {
                        lemma_index_injective(
                            w,
                            h,
                            c.x as int,
                            c.y as int,
                            wall.x as int,
                            wall.y as int,
                        );
                        assert(open_at(s3, w, h, m.x as int, m.y as int));
                        assert(has_open_nbr(s3, w, h, c.x as int, c.y as int));
                    } else {
                        assert(s3[c.x + c.y * w] == s[c.x + c.y * w]);
                        if s[c.x + c.y * w] != Tile::Wall {
                            assert(has_open_nbr(s, w, h, c.x as int, c.y as int));
                            assert(has_open_nbr(s3, w, h, c.x as int, c.y as int));
                        }
                    }
                }
                // the freshly gathered candidates are walls on the even lattice
                lemma_adjacent_seq_props(s3, w, h, Tile::Wall, wall.x, wall.y, 2);
                assert forall|k: int| 0 <= k < more@.len() implies frontier_entry_ok(
                    s3,
                    w,
                    h,
                    #[trigger] more@[k],
                ) by {
                    let c = more@[k];
                    assert(cell_is(s3, w, h, Tile::Wall, c.x as int, c.y as int));
                    lemma_index_in_range(w, h, c.x as int, c.y as int);
                    if c.x == 0 && c.y == 0 {
                        assert(open_at(s3, w, h, 0, 0));
                        assert(false);
                    }
                }
                lemma_index_in_range(w, h, wall.x as int, wall.y as int);
                assert(s3[wall.x + wall.y * w] == Tile::Empty);
                lemma_open_count_bounds(s3, w, h, h);
                assert(h * w == w * h) by (nonlinear_arith);
            }
            let ghost mid_walls = walls@;
            let ghost more_seq = more@;
            walls.append(&mut more);
            proof {
                assert forall|k: int| 0 <= k < walls@.len() implies frontier_entry_ok(
                    board.tiles(),
                    w,
                    h,
                    #[trigger] walls@[k],
                ) by {
                    if k < mid_walls.len() {
                        assert(walls@[k] == mid_walls[k]);
                    } else {
                        assert(walls@[k] == more_seq[k - mid_walls.len()]);
                    }
                }
            }
        } else {
            proof {
                // a pristine grid always carves: its wall candidates sit two
                // cells from the carved origin with only walls beside them
                if last_wall == (Coord { x: 0usize, y: 0usize }) {
                    assert(wall == init_walls[i as int]);
                    let wx = wall.x as int;
                    let wy = wall.y as int;
                    assert(tile_at(s, w, h, 0, 0) == Tile::Empty);
                    assert(cell_is(s, w, h, Tile::Empty, wx - 2, wy) || cell_is(
                        s,
                        w,
                        h,
                        Tile::Empty,
                        wx,
                        wy - 2,
                    ));
                    assert(cells@.len() > 0);
                    assert forall|a: int, b: int|
                        in_bounds(w, h, a, b) && !(a == 0 && b == 0) implies !cell_is(
                        s,
                        w,
                        h,
                        Tile::Empty,
                        a,
                        b,
                    ) by {
                        assert(tile_at(s, w, h, a, b) == Tile::Wall);
                    }
                    assert(conns@.len() == 0);
                    assert(false);
                }
            }
        }
    }

    let ghost s_pre = board.tiles();
    proof {
        lemma_index_in_range(w, h, last_wall.x as int, last_wall.y as int);
        if last_wall == (Coord { x: 0usize, y: 0usize }) {
            assert(init_walls.len() == 0);
            assert(w < 3 && h < 3);
            assert(s_pre[0] == Tile::Empty);
        }
    }
    board.set(last_wall.x, last_wall.y, Tile::Exit);
    proof {
        let s_fin = board.tiles();
        let li = last_wall.x + last_wall.y * w;
        assert(s_fin == s_pre.update(li, Tile::Exit));
        assert(s_pre[li] == Tile::Empty);
        assert(s_fin[li] == Tile::Exit);
        assert forall|i: int, j: int|
            0 <= i < s_fin.len() && 0 <= j < s_fin.len() && (#[trigger] s_fin[i]) == Tile::Exit && (
            #[trigger] s_fin[j]) == Tile::Exit implies i == j by {
            assert(i == li && j == li);
        }
        assert(unique_exit(s_fin));
        assert forall|a: int, b: int|
            #[trigger] open_at(s_fin, w, h, a, b) == open_at(s_pre, w, h, a, b) by {
            if in_bounds(w, h, a, b) {
                lemma_index_in_range(w, h, a, b);
                if a + b * w == li {
                    lemma_index_injective(w, h, a, b, last_wall.x as int, last_wall.y as int);
                }
            }
        }
        lemma_connected_same_open(s_pre, s_fin, w, h);
        lemma_counts_same_open(s_pre, s_fin, w, h, h);
        if last_wall != (Coord { x: 0usize, y: 0usize }) {
            if 0 == li {
                lemma_index_injective(w, h, 0, 0, last_wall.x as int, last_wall.y as int);
            }
            assert(s_fin[0] == s_pre[0]);
            assert(s_pre[0] == Tile::Empty);
        }
        assert(open_at(s_fin, w, h, 0, 0));
    }
}

} // verus!
