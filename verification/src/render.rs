use vstd::prelude::*;

use vstd::string::StringExecFns;

use crate::board::Board;
use crate::board::tile_at;
use crate::tile::Tile;

verus! {

/// The character drawn for one tile in the text rendering.
pub open spec fn tile_char(t: Tile) -> char {
    match t {
        Tile::Wall => '█',
        Tile::Empty => ' ',
        Tile::Exit => 'x',
    }
}

/// The first x characters of row y of the text rendering.
pub open spec fn render_row(s: Seq<Tile>, w: int, h: int, y: int, x: int) -> Seq<char>
    decreases x,
{
    if x <= 0 {
        Seq::empty()
    } else {
        render_row(s, w, h, y, x - 1).push(tile_char(tile_at(s, w, h, x - 1, y)))
    }
}

/// The first y rows of the text rendering, each closed by a newline.
pub open spec fn render_rows(s: Seq<Tile>, w: int, h: int, y: int) -> Seq<char>
    decreases y,
{
    if y <= 0 {
        Seq::empty()
    } else {
        render_rows(s, w, h, y - 1) + render_row(s, w, h, y - 1, w) + seq!['\n']
    }
}

impl Board {
    /// Pretty prints the maze as text art, row by row: walls as solid
    /// blocks, carved cells as spaces, the exit as an x, each row closed
    /// by a newline.
    pub fn pretty_print(&self) -> (r: String)
        requires
            self.wf(),
        ensures
            r@ == render_rows(self.tiles(), self.width(), self.height(), self.height()),
    {
        let mut output: String = String::new();
        let mut y: usize = 0;
        while y < self.size.y
            invariant
                self.wf(),
                y <= self.size.y,
                output@ == render_rows(self.tiles(), self.width(), self.height(), y as int),
            decreases self.size.y - y,
        {
            let mut x: usize = 0;
            proof {
                assert(output@ =~= render_rows(self.tiles(), self.width(), self.height(), y as int)
                    + render_row(self.tiles(), self.width(), self.height(), y as int, 0));
            }
            while x < self.size.x
                invariant
                    self.wf(),
                    y < self.size.y,
                    x <= self.size.x,
                    output@ == render_rows(self.tiles(), self.width(), self.height(), y as int)
                        + render_row(self.tiles(), self.width(), self.height(), y as int, x as int),
                decreases self.size.x - x,
            {
                let t = self.get(x, y);
                match t {
                    Tile::Wall => output.append("█"),
                    Tile::Empty => output.append(" "),
                    Tile::Exit => output.append("x"),
                }
                proof {
                    reveal_strlit("█");
                    reveal_strlit(" ");
                    reveal_strlit("x");
                    let s = self.tiles();
                    let w = self.width();
                    let h = self.height();
                    assert(output@ =~= render_rows(s, w, h, y as int) + render_row(
                        s,
                        w,
                        h,
                        y as int,
                        x as int + 1,
                    ));
                }
                x = x + 1;
            }
            output.append("\n");
            proof {
                reveal_strlit("\n");
                let s = self.tiles();
                let w = self.width();
                let h = self.height();
                assert(output@ =~= render_rows(s, w, h, y as int + 1));
            }
            y = y + 1;
        }
        output
    }
}

} // verus!
