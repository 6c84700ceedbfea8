use vstd::prelude::*;

use crate::board::in_bounds;
use crate::board::lemma_index_in_range;
use crate::board::lemma_index_injective;
use crate::paths::open_at;
use crate::tile::Tile;
use crate::tile::is_open;

verus! {

/// 1 when (x, y) is an open cell, 0 otherwise.
pub open spec fn open_ind(s: Seq<Tile>, w: int, h: int, x: int, y: int) -> int {
    if open_at(s, w, h, x, y) {
        1int
    } else {
        0int
    }
}

/// Number of open cells in row y among columns [0, x).
pub open spec fn row_open_count(s: Seq<Tile>, w: int, h: int, y: int, x: int) -> int
    decreases x,
{
    if x <= 0 {
        0
    } else {
        row_open_count(s, w, h, y, x - 1) + open_ind(s, w, h, x - 1, y)
    }
}

/// Number of open cells in rows [0, y).
pub open spec fn open_count_rows(s: Seq<Tile>, w: int, h: int, y: int) -> int
    decreases y,
{
    if y <= 0 {
        0
    } else {
        open_count_rows(s, w, h, y - 1) + row_open_count(s, w, h, y - 1, w)
    }
}

/// Number of open cells on the whole grid.
pub open spec fn open_count(s: Seq<Tile>, w: int, h: int) -> int {
    open_count_rows(s, w, h, h)
}

/// A horizontal connection: (x, y) and (x+1, y) both open.
pub open spec fn hedge_at(s: Seq<Tile>, w: int, h: int, x: int, y: int) -> bool {
    open_at(s, w, h, x, y) && open_at(s, w, h, x + 1, y)
}

/// A vertical connection: (x, y) and (x, y+1) both open.
pub open spec fn vedge_at(s: Seq<Tile>, w: int, h: int, x: int, y: int) -> bool {
    open_at(s, w, h, x, y) && open_at(s, w, h, x, y + 1)
}

/// Number of horizontal connections leaving row y rightward, among
/// columns [0, x).
pub open spec fn row_hedge_count(s: Seq<Tile>, w: int, h: int, y: int, x: int) -> int
    decreases x,
{
    if x <= 0 {
        0
    } else {
        row_hedge_count(s, w, h, y, x - 1) + if hedge_at(s, w, h, x - 1, y) {
            1int
        } else {
            0int
        }
    }
}

/// Number of vertical connections leaving row y downward, among columns
/// [0, x).
pub open spec fn row_vedge_count(s: Seq<Tile>, w: int, h: int, y: int, x: int) -> int
    decreases x,
{
    if x <= 0 {
        0
    } else {
        row_vedge_count(s, w, h, y, x - 1) + if vedge_at(s, w, h, x - 1, y) {
            1int
        } else {
            0int
        }
    }
}

/// Number of connections whose upper-left cell lies in rows [0, y).
pub open spec fn edge_count_rows(s: Seq<Tile>, w: int, h: int, y: int) -> int
    decreases y,
{
    if y <= 0 {
        0
    } else {
        edge_count_rows(s, w, h, y - 1) + row_hedge_count(s, w, h, y - 1, w) + row_vedge_count(
            s,
            w,
            h,
            y - 1,
            w,
        )
    }
}

/// Number of direct adjacent-open connections on the whole grid.
pub open spec fn edge_count(s: Seq<Tile>, w: int, h: int) -> int {
    edge_count_rows(s, w, h, h)
}

/// Number of open direct neighbors of (x, y).
pub open spec fn nbr_open(s: Seq<Tile>, w: int, h: int, x: int, y: int) -> int {
    open_ind(s, w, h, x + 1, y) + open_ind(s, w, h, x - 1, y) + open_ind(s, w, h, x, y + 1)
        + open_ind(s, w, h, x, y - 1)
}

/// The spanning-tree shape of a carved maze: one more open cell than
/// there are direct adjacent-open connections.
pub open spec fn spanning_tree_counts(s: Seq<Tile>, w: int, h: int) -> bool {
    open_count(s, w, h) - edge_count(s, w, h) == 1
}

/// Opening one cell turns the openness of that cell alone.
pub proof fn lemma_update_open_at(s: Seq<Tile>, w: int, h: int, x: int, y: int, t: Tile)
    requires
        in_bounds(w, h, x, y),
        s.len() == w * h,
        is_open(t),
    ensures
        forall|a: int, b: int|
            #[trigger] open_at(s.update(x + y * w, t), w, h, a, b) == (open_at(s, w, h, a, b) || (a
                == x && b == y)),
{
    let s2 = s.update(x + y * w, t);
    lemma_index_in_range(w, h, x, y);
    assert forall|a: int, b: int|
        #[trigger] open_at(s2, w, h, a, b) == (open_at(s, w, h, a, b) || (a == x && b
            == y)) by {
        if in_bounds(w, h, a, b) {
            lemma_index_in_range(w, h, a, b);
            if a + b * w == x + y * w {
                lemma_index_injective(w, h, a, b, x, y);
            }
        }
    }
}

/// A row's open count is unchanged when that row's openness is unchanged.
pub proof fn lemma_row_open_same(s1: Seq<Tile>, s2: Seq<Tile>, w: int, h: int, y: int, x: int)
    requires
        forall|a: int| #[trigger] open_at(s2, w, h, a, y) == open_at(s1, w, h, a, y),
    ensures
        row_open_count(s2, w, h, y, x) == row_open_count(s1, w, h, y, x),
    decreases x,
{
    if x > 0 {
        lemma_row_open_same(s1, s2, w, h, y, x - 1);
        assert(open_at(s2, w, h, x - 1, y) == open_at(s1, w, h, x - 1, y));
    }
}

/// Opening the one closed cell (x, y) raises its row's open count by one.
pub proof fn lemma_row_open_update(
    s1: Seq<Tile>,
    s2: Seq<Tile>,
    w: int,
    h: int,
    x: int,
    y: int,
    xe: int,
)
    requires
        forall|a: int|
            #[trigger] open_at(s2, w, h, a, y) == (open_at(s1, w, h, a, y) || a == x),
        !open_at(s1, w, h, x, y),
    ensures
        row_open_count(s2, w, h, y, xe) == row_open_count(s1, w, h, y, xe) + if 0 <= x < xe {
            1int
        } else {
            0int
        },
    decreases xe,
{
    if xe > 0 {
        lemma_row_open_update(s1, s2, w, h, x, y, xe - 1);
        assert(open_at(s2, w, h, xe - 1, y) == (open_at(s1, w, h, xe - 1, y) || xe - 1 == x));
    }
}

/// A row's horizontal-connection count is unchanged when that row's
/// openness is unchanged.
pub proof fn lemma_row_hedge_same(s1: Seq<Tile>, s2: Seq<Tile>, w: int, h: int, y: int, x: int)
    requires
        forall|a: int| #[trigger] open_at(s2, w, h, a, y) == open_at(s1, w, h, a, y),
    ensures
        row_hedge_count(s2, w, h, y, x) == row_hedge_count(s1, w, h, y, x),
    decreases x,
{
    if x > 0 {
        lemma_row_hedge_same(s1, s2, w, h, y, x - 1);
        assert(open_at(s2, w, h, x - 1, y) == open_at(s1, w, h, x - 1, y));
        assert(open_at(s2, w, h, x, y) == open_at(s1, w, h, x, y));
    }
}

/// Opening the one closed cell (x, y) adds to its row exactly the
/// horizontal connections toward its open left and right neighbors.
pub proof fn lemma_row_hedge_update(
    s1: Seq<Tile>,
    s2: Seq<Tile>,
    w: int,
    h: int,
    x: int,
    y: int,
    xe: int,
)
    requires
        forall|a: int|
            #[trigger] open_at(s2, w, h, a, y) == (open_at(s1, w, h, a, y) || a == x),
        !open_at(s1, w, h, x, y),
    ensures
        row_hedge_count(s2, w, h, y, xe) == row_hedge_count(s1, w, h, y, xe) + (if 0 <= x < xe {
            open_ind(s1, w, h, x + 1, y)
        } else {
            0int
        }) + (if 0 <= x - 1 < xe {
            open_ind(s1, w, h, x - 1, y)
        } else {
            0int
        }),
    decreases xe,
{
    if xe > 0 {
        lemma_row_hedge_update(s1, s2, w, h, x, y, xe - 1);
        assert(open_at(s2, w, h, xe - 1, y) == (open_at(s1, w, h, xe - 1, y) || xe - 1 == x));
        assert(open_at(s2, w, h, xe, y) == (open_at(s1, w, h, xe, y) || xe == x));
    }
}

/// A row's vertical-connection count is unchanged when the openness of
/// that row and the next is unchanged.
pub proof fn lemma_row_vedge_same(s1: Seq<Tile>, s2: Seq<Tile>, w: int, h: int, y: int, x: int)
    requires
        forall|a: int| #[trigger] open_at(s2, w, h, a, y) == open_at(s1, w, h, a, y),
        forall|a: int| #[trigger] open_at(s2, w, h, a, y + 1) == open_at(s1, w, h, a, y + 1),
    ensures
        row_vedge_count(s2, w, h, y, x) == row_vedge_count(s1, w, h, y, x),
    decreases x,
{
    if x > 0 {
        lemma_row_vedge_same(s1, s2, w, h, y, x - 1);
        assert(open_at(s2, w, h, x - 1, y) == open_at(s1, w, h, x - 1, y));
        assert(open_at(s2, w, h, x - 1, y + 1) == open_at(s1, w, h, x - 1, y + 1));
    }
}

/// Opening the one closed cell (x, y) adds to its own row exactly the
/// vertical connection toward its open lower neighbor.
pub proof fn lemma_row_vedge_update_self(
    s1: Seq<Tile>,
    s2: Seq<Tile>,
    w: int,
    h: int,
    x: int,
    y: int,
    xe: int,
)
    requires
        forall|a: int|
            #[trigger] open_at(s2, w, h, a, y) == (open_at(s1, w, h, a, y) || a == x),
        forall|a: int| #[trigger] open_at(s2, w, h, a, y + 1) == open_at(s1, w, h, a, y + 1),
        !open_at(s1, w, h, x, y),
    ensures
        row_vedge_count(s2, w, h, y, xe) == row_vedge_count(s1, w, h, y, xe) + (if 0 <= x < xe {
            open_ind(s1, w, h, x, y + 1)
        } else {
            0int
        }),
    decreases xe,
{
    if xe > 0 {
        lemma_row_vedge_update_self(s1, s2, w, h, x, y, xe - 1);
        assert(open_at(s2, w, h, xe - 1, y) == (open_at(s1, w, h, xe - 1, y) || xe - 1 == x));
        assert(open_at(s2, w, h, xe - 1, y + 1) == open_at(s1, w, h, xe - 1, y + 1));
    }
}

/// Opening the one closed cell (x, y) adds to the row above exactly the
/// vertical connection coming down from its open upper neighbor.
pub proof fn lemma_row_vedge_update_above(
    s1: Seq<Tile>,
    s2: Seq<Tile>,
    w: int,
    h: int,
    x: int,
    y: int,
    xe: int,
)
    requires
        forall|a: int| #[trigger] open_at(s2, w, h, a, y - 1) == open_at(s1, w, h, a, y - 1),
        forall|a: int|
            #[trigger] open_at(s2, w, h, a, y) == (open_at(s1, w, h, a, y) || a == x),
        !open_at(s1, w, h, x, y),
    ensures
        row_vedge_count(s2, w, h, y - 1, xe) == row_vedge_count(s1, w, h, y - 1, xe) + (if 0 <= x
            < xe {
            open_ind(s1, w, h, x, y - 1)
        } else {
            0int
        }),
    decreases xe,
{
    if xe > 0 {
        lemma_row_vedge_update_above(s1, s2, w, h, x, y, xe - 1);
        assert(open_at(s2, w, h, xe - 1, y - 1) == open_at(s1, w, h, xe - 1, y - 1));
        assert(open_at(s2, w, h, xe - 1, y) == (open_at(s1, w, h, xe - 1, y) || xe - 1 == x));
    }
}

/// Opening one closed cell raises the open-cell count of the rows below
/// ye by exactly one once its row is included.
pub proof fn lemma_open_rows_update(
    s1: Seq<Tile>,
    s2: Seq<Tile>,
    w: int,
    h: int,
    x: int,
    y: int,
    ye: int,
)
    requires
        forall|a: int, b: int|
            #[trigger] open_at(s2, w, h, a, b) == (open_at(s1, w, h, a, b) || (a == x && b == y)),
        !open_at(s1, w, h, x, y),
        0 <= x < w,
    ensures
        open_count_rows(s2, w, h, ye) == open_count_rows(s1, w, h, ye) + if 0 <= y < ye {
            1int
        } else {
            0int
        },
    decreases ye,
{
    if ye > 0 {
        lemma_open_rows_update(s1, s2, w, h, x, y, ye - 1);
        if ye - 1 == y {
            assert forall|a: int|
                #[trigger] open_at(s2, w, h, a, y) == (open_at(s1, w, h, a, y) || a == x) by {
                assert(open_at(s2, w, h, a, y) == (open_at(s1, w, h, a, y) || (a == x && y == y)));
            }
            lemma_row_open_update(s1, s2, w, h, x, y, w);
        } else {
            assert forall|a: int|
                #[trigger] open_at(s2, w, h, a, ye - 1) == open_at(s1, w, h, a, ye - 1) by {
                assert(open_at(s2, w, h, a, ye - 1) == (open_at(s1, w, h, a, ye - 1) || (a == x
                    && ye - 1 == y)));
            }
            lemma_row_open_same(s1, s2, w, h, ye - 1, w);
        }
    }
}

/// Opening one closed cell raises the connection count of the rows below
/// ye by exactly the open neighbors whose connection lies in those rows.
pub proof fn lemma_edge_rows_update(
    s1: Seq<Tile>,
    s2: Seq<Tile>,
    w: int,
    h: int,
    x: int,
    y: int,
    ye: int,
)
    requires
        forall|a: int, b: int|
            #[trigger] open_at(s2, w, h, a, b) == (open_at(s1, w, h, a, b) || (a == x && b == y)),
        !open_at(s1, w, h, x, y),
        0 <= x < w,
    ensures
        edge_count_rows(s2, w, h, ye) == edge_count_rows(s1, w, h, ye) + (if 0 <= y < ye {
            open_ind(s1, w, h, x + 1, y) + open_ind(s1, w, h, x - 1, y) + open_ind(
                s1,
                w,
                h,
                x,
                y + 1,
            )
        } else {
            0int
        }) + (if 0 <= y - 1 < ye {
            open_ind(s1, w, h, x, y - 1)
        } else {
            0int
        }),
    decreases ye,
{
    if ye > 0 {
        lemma_edge_rows_update(s1, s2, w, h, x, y, ye - 1);
        let r = ye - 1;
        if r == y {
            assert forall|a: int|
                #[trigger] open_at(s2, w, h, a, y) == (open_at(s1, w, h, a, y) || a == x) by {
                assert(open_at(s2, w, h, a, y) == (open_at(s1, w, h, a, y) || (a == x && y == y)));
            }
            assert forall|a: int|
                #[trigger] open_at(s2, w, h, a, y + 1) == open_at(s1, w, h, a, y + 1) by {
                assert(open_at(s2, w, h, a, y + 1) == (open_at(s1, w, h, a, y + 1) || (a == x && y
                    + 1 == y)));
            }
            lemma_row_hedge_update(s1, s2, w, h, x, y, w);
            lemma_row_vedge_update_self(s1, s2, w, h, x, y, w);
        } else if r == y - 1 {
            assert forall|a: int|
                #[trigger] open_at(s2, w, h, a, y - 1) == open_at(s1, w, h, a, y - 1) by {
                assert(open_at(s2, w, h, a, y - 1) == (open_at(s1, w, h, a, y - 1) || (a == x && y
                    - 1 == y)));
            }
            assert forall|a: int|
                #[trigger] open_at(s2, w, h, a, y) == (open_at(s1, w, h, a, y) || a == x) by {
                assert(open_at(s2, w, h, a, y) == (open_at(s1, w, h, a, y) || (a == x && y == y)));
            }
            lemma_row_hedge_same(s1, s2, w, h, y - 1, w);
            lemma_row_vedge_update_above(s1, s2, w, h, x, y, w);
        } else {
            assert forall|a: int| #[trigger] open_at(s2, w, h, a, r) == open_at(s1, w, h, a, r) by {
                assert(open_at(s2, w, h, a, r) == (open_at(s1, w, h, a, r) || (a == x && r == y)));
            }
            assert forall|a: int|
                #[trigger] open_at(s2, w, h, a, r + 1) == open_at(s1, w, h, a, r + 1) by {
                assert(open_at(s2, w, h, a, r + 1) == (open_at(s1, w, h, a, r + 1) || (a == x && r
                    + 1 == y)));
            }
            lemma_row_hedge_same(s1, s2, w, h, r, w);
            lemma_row_vedge_same(s1, s2, w, h, r, w);
        }
    }
}

/// Opening one closed cell with an open tile: one more open cell, and one
/// more connection per open direct neighbor.
pub proof fn lemma_open_cell_counts(s: Seq<Tile>, w: int, h: int, x: int, y: int, t: Tile)
    requires
        in_bounds(w, h, x, y),
        s.len() == w * h,
        !open_at(s, w, h, x, y),
        is_open(t),
    ensures
        open_count(s.update(x + y * w, t), w, h) == open_count(s, w, h) + 1,
        edge_count(s.update(x + y * w, t), w, h) == edge_count(s, w, h) + nbr_open(s, w, h, x, y),
{
    let s2 = s.update(x + y * w, t);
    lemma_update_open_at(s, w, h, x, y, t);
    lemma_open_rows_update(s, s2, w, h, x, y, h);
    lemma_edge_rows_update(s, s2, w, h, x, y, h);
    if y == 0 {
        assert(open_ind(s, w, h, x, y - 1) == 0);
    }
}

/// Both counts are unchanged between grids with the same open cells.
pub proof fn lemma_counts_same_open(s1: Seq<Tile>, s2: Seq<Tile>, w: int, h: int, ye: int)
    requires
        forall|a: int, b: int| #[trigger] open_at(s2, w, h, a, b) == open_at(s1, w, h, a, b),
    ensures
        open_count_rows(s2, w, h, ye) == open_count_rows(s1, w, h, ye),
        edge_count_rows(s2, w, h, ye) == edge_count_rows(s1, w, h, ye),
    decreases ye,
{
    if ye > 0 {
        lemma_counts_same_open(s1, s2, w, h, ye - 1);
        let r = ye - 1;
        assert forall|a: int| #[trigger] open_at(s2, w, h, a, r) == open_at(s1, w, h, a, r) by {}
        assert forall|a: int|
            #[trigger] open_at(s2, w, h, a, r + 1) == open_at(s1, w, h, a, r + 1) by {}
        lemma_row_open_same(s1, s2, w, h, r, w);
        lemma_row_hedge_same(s1, s2, w, h, r, w);
        lemma_row_vedge_same(s1, s2, w, h, r, w);
    }
}

/// A grid with no open cell has zero in both counts.
pub proof fn lemma_counts_all_closed(s: Seq<Tile>, w: int, h: int, ye: int)
    requires
        forall|a: int, b: int| !(#[trigger] open_at(s, w, h, a, b)),
    ensures
        open_count_rows(s, w, h, ye) == 0,
        edge_count_rows(s, w, h, ye) == 0,
    decreases ye,
{
    if ye > 0 {
        lemma_counts_all_closed(s, w, h, ye - 1);
        lemma_row_all_closed(s, w, h, ye - 1, w);
    }
}

/// One all-closed row contributes nothing to any count.
pub proof fn lemma_row_all_closed(s: Seq<Tile>, w: int, h: int, y: int, x: int)
    requires
        forall|a: int, b: int| !(#[trigger] open_at(s, w, h, a, b)),
    ensures
        row_open_count(s, w, h, y, x) == 0,
        row_hedge_count(s, w, h, y, x) == 0,
        row_vedge_count(s, w, h, y, x) == 0,
    decreases x,
{
    if x > 0 {
        lemma_row_all_closed(s, w, h, y, x - 1);
        assert(!open_at(s, w, h, x - 1, y));
    }
}

/// The open-cell count never exceeds the grid's area.
pub proof fn lemma_open_count_bounds(s: Seq<Tile>, w: int, h: int, ye: int)
    requires
        w >= 0,
        ye >= 0,
    ensures
        0 <= open_count_rows(s, w, h, ye) <= ye * w,
    decreases ye,
{
    if ye > 0 {
        lemma_open_count_bounds(s, w, h, ye - 1);
        lemma_row_open_bounds(s, w, h, ye - 1, w);
        assert((ye - 1) * w + w == ye * w) by (nonlinear_arith);
    } else {
        assert(ye * w == 0) by (nonlinear_arith)
            requires
                ye == 0,
        ;
    }
}

/// A row's open count lies between zero and the columns scanned.
pub proof fn lemma_row_open_bounds(s: Seq<Tile>, w: int, h: int, y: int, x: int)
    requires
        x >= 0,
    ensures
        0 <= row_open_count(s, w, h, y, x) <= x,
    decreases x,
{
    if x > 0 {
        lemma_row_open_bounds(s, w, h, y, x - 1);
    }
}

} // verus!
