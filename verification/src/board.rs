use vstd::prelude::*;

use vstd::pervasive::VecAdditionalExecFns;

use crate::tile::Tile;

verus! {

/// An (x, y) coordinate on the game board; also used for its size.
#[derive(Clone, Copy, PartialEq, Eq, Structural, Debug)]
pub struct Coord {
    pub x: usize,
    pub y: usize,
}

impl Coord {
    /// Creates a new coordinate (x, y).
    pub fn new(x: usize, y: usize) -> (c: Self)
        ensures
            c == (Coord { x, y }),
    {
        Coord { x, y }
    }
}

/// True when (x, y) lies on a w-by-h grid.
pub open spec fn in_bounds(w: int, h: int, x: int, y: int) -> bool {
    0 <= x < w && 0 <= y < h
}

/// The tile stored at (x, y) of a row-major w-by-h grid, with a Wall
/// sentinel for every out-of-range query.
pub open spec fn tile_at(s: Seq<Tile>, w: int, h: int, x: int, y: int) -> Tile {
    if in_bounds(w, h, x, y) {
        s[x + y * w]
    } else {
        Tile::Wall
    }
}

/// True when (x, y) is on the grid and holds exactly the tile t.
pub open spec fn cell_is(s: Seq<Tile>, w: int, h: int, t: Tile, x: int, y: int) -> bool {
    in_bounds(w, h, x, y) && s[x + y * w] == t
}

/// Row-major indexing stays inside the backing array.
pub proof fn lemma_index_in_range(w: int, h: int, x: int, y: int)
    requires
        0 <= x < w,
        0 <= y < h,
    ensures
        0 <= y * w,
        x + y * w < w * h,
{
    assert(0 <= y * w && x + y * w < w * h) by (nonlinear_arith)
        requires
            0 <= x < w,
            0 <= y < h,
    ;
}

/// Distinct on-grid coordinates occupy distinct row-major indices.
pub proof fn lemma_index_injective(w: int, h: int, x1: int, y1: int, x2: int, y2: int)
    requires
        0 <= x1 < w,
        0 <= y1 < h,
        0 <= x2 < w,
        0 <= y2 < h,
        x1 + y1 * w == x2 + y2 * w,
    ensures
        x1 == x2,
        y1 == y2,
{
    assert(x1 == x2 && y1 == y2) by (nonlinear_arith)
        requires
            0 <= x1 < w,
            0 <= y1 < h,
            0 <= x2 < w,
            0 <= y2 < h,
            x1 + y1 * w == x2 + y2 * w,
    ;
}

/// The game board: a rectangular maze, the player's position, and the
/// session's win flag.
pub struct Board {
    /// True if the game has been won.
    pub game_done: bool,
    /// Current location of the player on the board.
    pub player_pos: Coord,
    /// Starting position of the player.
    pub start_pos: Coord,
    /// Size of the board in units (width, height).
    pub size: Coord,
    /// Stores the actual tile data for the board.
    pub data: Vec<Tile>,
}

impl Board {
    /// The backing tile array, row-major.
    pub open spec fn tiles(&self) -> Seq<Tile> {
        self.data@
    }

    /// The fixed starting position.
    pub open spec fn spec_start(&self) -> Coord {
        self.start_pos
    }

    pub open spec fn width(&self) -> int {
        self.size.x as int
    }

    pub open spec fn height(&self) -> int {
        self.size.y as int
    }

    /// Well-formedness: positive extent, a backing array that matches it,
    /// a player on the grid, and the start pinned to the origin.
    pub open spec fn wf(&self) -> bool {
        &&& 1 <= self.width()
        &&& 1 <= self.height()
        &&& self.tiles().len() == self.width() * self.height()
        &&& (self.player_pos.x as int) < self.width()
        &&& (self.player_pos.y as int) < self.height()
        &&& self.spec_start() == (Coord { x: 0usize, y: 0usize })
    }

    /// The tile seen at (x, y), Wall when out of range.
    pub open spec fn spec_tile(&self, x: int, y: int) -> Tile {
        tile_at(self.tiles(), self.width(), self.height(), x, y)
    }

    /// Creates a new game board of size (width, height), all walls, with
    /// the player at the origin and the game not yet won.
    pub fn new(width: usize, height: usize) -> (b: Board)
        requires
            1 <= width,
            1 <= height,
            width * height <= usize::MAX,
        ensures
            b.wf(),
            b.size == (Coord { x: width, y: height }),
            b.player_pos == (Coord { x: 0usize, y: 0usize }),
            b.spec_start() == (Coord { x: 0usize, y: 0usize }),
            !b.game_done,
            b.tiles().len() == width * height,
            forall|i: int| 0 <= i < b.tiles().len() ==> b.tiles()[i] == Tile::Wall,
    {
        let area: usize = width * height;
        let mut data: Vec<Tile> = Vec::new();
        let mut k: usize = 0;
        while k < area
            invariant
                k <= area,
                data@.len() == k,
                forall|i: int| 0 <= i < k ==> data@[i] == Tile::Wall,
            decreases area - k,
        {
            data.push(Tile::Wall);
            k = k + 1;
        }
        Board {
            game_done: false,
            player_pos: Coord::new(0, 0),
            start_pos: Coord::new(0, 0),
            size: Coord::new(width, height),
            data,
        }
    }

    /// Gets the tile at (x, y), or a wall if none exists there.
    pub fn get(&self, x: usize, y: usize) -> (t: Tile)
        requires
            self.wf(),
        ensures
            t == self.spec_tile(x as int, y as int),
    {
        if x < self.size.x && y < self.size.y {
            proof {
                vstd::std_specs::vec::axiom_spec_len(&self.data);
                lemma_index_in_range(self.width(), self.height(), x as int, y as int);
            }
            self.data[x + y * self.size.x]
        } else {
            Tile::Wall
        }
    }

    /// True if there is a tile at (x, y) and it is a wall.
    pub fn is_wall(&self, x: usize, y: usize) -> (r: bool)
        requires
            self.wf(),
        ensures
            r == cell_is(self.tiles(), self.width(), self.height(), Tile::Wall, x as int, y as int),
    {
        if x >= self.size.x || y >= self.size.y {
            return false;
        }
        self.get(x, y) == Tile::Wall
    }

    /// True if there is a tile at (x, y) and it is empty.
    pub fn is_empty(&self, x: usize, y: usize) -> (r: bool)
        requires
            self.wf(),
        ensures
            r == cell_is(self.tiles(), self.width(), self.height(), Tile::Empty, x as int, y as int),
    {
        if x >= self.size.x || y >= self.size.y {
            return false;
        }
        self.get(x, y) == Tile::Empty
    }

    /// Sets the tile at (x, y) to `tile` if (x, y) is on the grid; writes
    /// nowhere otherwise.
    pub fn set(&mut self, x: usize, y: usize, tile: Tile)
        requires
            old(self).wf(),
        ensures
            final(self).wf(),
            final(self).size == old(self).size,
            final(self).player_pos == old(self).player_pos,
            final(self).game_done == old(self).game_done,
            final(self).spec_start() == old(self).spec_start(),
            final(self).tiles() == set_tile(
                old(self).tiles(),
                old(self).width(),
                old(self).height(),
                (Coord { x, y }),
                tile,
            ),
    {
        if x < self.size.x && y < self.size.y {
            proof {
                vstd::std_specs::vec::axiom_spec_len(&self.data);
                lemma_index_in_range(self.width(), self.height(), x as int, y as int);
            }
            let i: usize = x + y * self.size.x;
            self.data.set(i, tile);
        }
    }
}

/// The backing array after one bounds-checked write: updated at the
/// row-major index of c when c is on the grid, unchanged otherwise.
pub open spec fn set_tile(s: Seq<Tile>, w: int, h: int, c: Coord, t: Tile) -> Seq<Tile> {
    if in_bounds(w, h, c.x as int, c.y as int) {
        s.update(c.x + c.y * w, t)
    } else {
        s
    }
}

/// The coordinates at axis offset d from (x, y) whose cell holds exactly
/// the tile t, in the fixed scan order +x, -x, +y, -y. Offsets that leave
/// the unsigned coordinate domain are skipped.
pub open spec fn adjacent_seq(
    s: Seq<Tile>,
    w: int,
    h: int,
    t: Tile,
    x: usize,
    y: usize,
    d: usize,
) -> Seq<Coord> {
    (if x + d <= usize::MAX && cell_is(s, w, h, t, x + d, y as int) {
        seq![Coord { x: (x + d) as usize, y }]
    } else {
        Seq::<Coord>::empty()
    }) + (if d <= x && cell_is(s, w, h, t, x - d, y as int) {
        seq![Coord { x: (x - d) as usize, y }]
    } else {
        Seq::<Coord>::empty()
    }) + (if y + d <= usize::MAX && cell_is(s, w, h, t, x as int, y + d) {
        seq![Coord { x, y: (y + d) as usize }]
    } else {
        Seq::<Coord>::empty()
    }) + (if d <= y && cell_is(s, w, h, t, x as int, y - d) {
        seq![Coord { x, y: (y - d) as usize }]
    } else {
        Seq::<Coord>::empty()
    })
}

/// Every coordinate the adjacency scan returns holds the scanned-for tile
/// and lies at exact axis offset d from the queried point.
pub proof fn lemma_adjacent_seq_props(
    s: Seq<Tile>,
    w: int,
    h: int,
    t: Tile,
    x: usize,
    y: usize,
    d: usize,
)
    ensures
        adjacent_seq(s, w, h, t, x, y, d).len() <= 4,
        forall|j: int|
            0 <= j < adjacent_seq(s, w, h, t, x, y, d).len() ==> {
                let c = #[trigger] adjacent_seq(s, w, h, t, x, y, d)[j];
                &&& cell_is(s, w, h, t, c.x as int, c.y as int)
                &&& {
                    ||| (c.x == x + d && c.y == y)
                    ||| (c.x + d == x && c.y == y)
                    ||| (c.x == x && c.y == y + d)
                    ||| (c.x == x && c.y + d == y)
                }
            },
{
}

impl Board {
    /// The up-to-four coordinates at axis offset d from (x, y) whose tile
    /// is exactly t, scanned in the order +x, -x, +y, -y.
    fn adjacent_matching(&self, t: Tile, x: usize, y: usize, d: usize) -> (r: Vec<Coord>)
        requires
            self.wf(),
        ensures
            r@ == adjacent_seq(self.tiles(), self.width(), self.height(), t, x, y, d),
    {
        let mut out: Vec<Coord> = Vec::new();
        if x <= usize::MAX - d {
            let nx: usize = x + d;
            if self.get(nx, y) == t && nx < self.size.x && y < self.size.y {
                out.push(Coord::new(nx, y));
            }
        }
        if x >= d {
            let nx: usize = x - d;
            if self.get(nx, y) == t && nx < self.size.x && y < self.size.y {
                out.push(Coord::new(nx, y));
            }
        }
        if y <= usize::MAX - d {
            let ny: usize = y + d;
            if self.get(x, ny) == t && x < self.size.x && ny < self.size.y {
                out.push(Coord::new(x, ny));
            }
        }
        if y >= d {
            let ny: usize = y - d;
            if self.get(x, ny) == t && x < self.size.x && ny < self.size.y {
                out.push(Coord::new(x, ny));
            }
        }
        proof {
            assert(out@ =~= adjacent_seq(self.tiles(), self.width(), self.height(), t, x, y, d));
        }
        out
    }

    /// Get all tiles a passage-length (2) away from (x, y) that are walls.
    pub fn get_adjacent_walls(&self, x: usize, y: usize) -> (r: Vec<Coord>)
        requires
            self.wf(),
        ensures
            r@ == adjacent_seq(self.tiles(), self.width(), self.height(), Tile::Wall, x, y, 2),
    {
        self.adjacent_matching(Tile::Wall, x, y, 2)
    }

    /// Get all tiles a passage-length (2) away from (x, y) that are empty.
    pub fn get_adjacent_empty(&self, x: usize, y: usize) -> (r: Vec<Coord>)
        requires
            self.wf(),
        ensures
            r@ == adjacent_seq(self.tiles(), self.width(), self.height(), Tile::Empty, x, y, 2),
    {
        self.adjacent_matching(Tile::Empty, x, y, 2)
    }

    /// Get all directly adjacent tiles that are empty, meaning they
    /// connect to this tile.
    pub fn get_adjacent_connections(&self, x: usize, y: usize) -> (r: Vec<Coord>)
        requires
            self.wf(),
        ensures
            r@ == adjacent_seq(self.tiles(), self.width(), self.height(), Tile::Empty, x, y, 1),
    {
        self.adjacent_matching(Tile::Empty, x, y, 1)
    }
}

/// The single cell between the endpoints of an axis-aligned passage: the
/// immediate neighbor of a toward b, absent when the endpoints share both
/// axes or align on neither.
pub open spec fn passage_mid(a: Coord, b: Coord) -> Option<Coord> {
    if a.x == b.x && a.y < b.y {
        Some(Coord { x: a.x, y: (a.y + 1) as usize })
    } else if a.x == b.x && a.y > b.y {
        Some(Coord { x: a.x, y: (a.y - 1) as usize })
    } else if a.y == b.y && a.x < b.x {
        Some(Coord { x: (a.x + 1) as usize, y: a.y })
    } else if a.y == b.y && a.x > b.x {
        Some(Coord { x: (a.x - 1) as usize, y: a.y })
    } else {
        None
    }
}

/// The backing array after carving a passage from a to b: the midpoint
/// (when the endpoints align on one axis), then a, then b are each set
/// Empty, all through bounds-checked writes.
pub open spec fn passage_tiles(s: Seq<Tile>, w: int, h: int, a: Coord, b: Coord) -> Seq<Tile> {
    let s1 = match passage_mid(a, b) {
        Some(m) => set_tile(s, w, h, m, Tile::Empty),
        None => s,
    };
    let s2 = set_tile(s1, w, h, a, Tile::Empty);
    set_tile(s2, w, h, b, Tile::Empty)
}

impl Board {
    /// Make a passage between two tiles: both endpoints and, for endpoints
    /// aligned at the passage length, the single cell between them become
    /// empty.
    pub fn make_passage(&mut self, start: Coord, end: Coord)
        requires
            old(self).wf(),
        ensures
            final(self).wf(),
            final(self).size == old(self).size,
            final(self).player_pos == old(self).player_pos,
            final(self).game_done == old(self).game_done,
            final(self).spec_start() == old(self).spec_start(),
            final(self).tiles() == passage_tiles(
                old(self).tiles(),
                old(self).width(),
                old(self).height(),
                start,
                end,
            ),
    {
        if start.x == end.x {
            if start.y < end.y {
                self.set(start.x, start.y + 1, Tile::Empty);
            } else if start.y > end.y {
                self.set(start.x, start.y - 1, Tile::Empty);
            }
        } else if start.y == end.y {
            if start.x < end.x {
                self.set(start.x + 1, start.y, Tile::Empty);
            } else {
                self.set(start.x - 1, start.y, Tile::Empty);
            }
        }
        self.set(start.x, start.y, Tile::Empty);
        self.set(end.x, end.y, Tile::Empty);
    }
}

} // verus!
