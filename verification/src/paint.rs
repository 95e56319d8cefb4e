//! A rectangular part of the grid as a picture of one pixel for each tile.

use vstd::prelude::*;
use crate::grid::{Board, TileStore};

verus! {

/// The colour of a tile, as red, green and blue: background black, the clues
/// red, yellow and green, unprocessed white, active grey, the landmark
/// orange, the marker magenta, and anything else blue.
pub open spec fn tile_color(t: u8) -> (u8, u8, u8) {
    if t == 0 {
        (0, 0, 0)
    } else if t == 1 {
        (255, 0, 0)
    } else if t == 2 {
        (255, 255, 0)
    } else if t == 3 {
        (0, 255, 0)
    } else if t == 5 {
        (255, 255, 255)
    } else if t == 7 {
        (128, 128, 128)
    } else if t == 8 {
        (0xE7, 0x8D, 0x0E)
    } else if t == 10 {
        (255, 0, 255)
    } else {
        (0, 0, 255)
    }
}

/// The colour of a tile.
pub fn color_of(t: u8) -> (c: (u8, u8, u8))
    ensures
        c == tile_color(t),
{
    if t == 0 {
        (0, 0, 0)
    } else if t == 1 {
        (255, 0, 0)
    } else if t == 2 {
        (255, 255, 0)
    } else if t == 3 {
        (0, 255, 0)
    } else if t == 5 {
        (255, 255, 255)
    } else if t == 7 {
        (128, 128, 128)
    } else if t == 8 {
        (0xE7, 0x8D, 0x0E)
    } else if t == 10 {
        (255, 0, 255)
    } else {
        (0, 0, 255)
    }
}

/// The pixels of the first `n` tiles of row `y` from column `x1` on: three
/// bytes each.
pub open spec fn pixel_row(b: Board, x1: int, y: int, n: int) -> Seq<u8>
    decreases n,
{
    if n <= 0 {
        Seq::empty()
    } else {
        let c = tile_color(b.tile(x1 + n - 1, y));
        pixel_row(b, x1, y, n - 1) + seq![c.0, c.1, c.2]
    }
}

/// The pixels of the first `rows` rows from row `y1` on, each `width` tiles
/// wide, row after row.
pub open spec fn pixel_rows(b: Board, x1: int, y1: int, width: int, rows: int) -> Seq<u8>
    decreases rows,
{
    if rows <= 0 {
        Seq::empty()
    } else {
        pixel_rows(b, x1, y1, width, rows - 1) + pixel_row(b, x1, y1 + rows - 1, width)
    }
}

/// The smaller of two numbers.
pub open spec fn least(a: int, b: int) -> int {
    if a <= b {
        a
    } else {
        b
    }
}

/// A picture: its dimensions and three bytes for each pixel, row after row.
pub struct Picture {
    pub width: usize,
    pub height: usize,
    pub pixels: Vec<u8>,
}

/// The picture of the tiles from `(x1, y1)` up to, not including,
/// `(x2, y2)`, cut off at the edges of the grid. `None` where the corner
/// `(x1, y1)` lies beyond the grid or behind `(x2, y2)`.
pub fn render_window<T: TileStore>(map: &T, x1: usize, x2: usize, y1: usize, y2: usize) -> (r:
    Option<Picture>)
    requires
        map.wf(),
    ensures
        match r {
            None => x1 > x2 || y1 > y2 || x1 > map@.width || y1 > map@.height,
            Some(p) => {
                &&& x1 <= x2 && y1 <= y2 && x1 <= map@.width && y1 <= map@.height
                &&& p.width == least(x2 - x1, map@.width - x1)
                &&& p.height == least(y2 - y1, map@.height - y1)
                &&& p.pixels@ == pixel_rows(
                    map@,
                    x1 as int,
                    y1 as int,
                    p.width as int,
                    p.height as int,
                )
            },
        },
{
    let w = map.width();
    let h = map.height();
    if x1 > x2 || y1 > y2 || x1 > w || y1 > h {
        return None;
    }
    let width = if x2 - x1 <= w - x1 {
        x2 - x1
    } else {
        w - x1
    };
    let height = if y2 - y1 <= h - y1 {
        y2 - y1
    } else {
        h - y1
    };
    let ghost b = map@;
    let mut img: Vec<u8> = Vec::new();
    let mut y: usize = 0;
    proof {
        map.lemma_board_wf();
    }
    while y < height
        invariant
            y <= height,
            map.wf(),
            b == map@,
            b.wf(),
            x1 + width <= b.width,
            y1 + height <= b.height,
            w == b.width,
            img@ == pixel_rows(b, x1 as int, y1 as int, width as int, y as int),
        decreases height - y,
    {
        let ghost above = img@;
        let mut x: usize = 0;
        while x < width
            invariant
                x <= width,
                y < height,
                map.wf(),
                b == map@,
                b.wf(),
                x1 + width <= b.width,
                y1 + height <= b.height,
                img@ == above + pixel_row(b, x1 as int, y1 + y, x as int),
            decreases width - x,
        {
            let pixel = color_of(map.get(x1 + x, y1 + y));
            img.push(pixel.0);
            img.push(pixel.1);
            img.push(pixel.2);
            assert(img@ =~= above + pixel_row(b, x1 as int, y1 + y, x + 1));
            x = x + 1;
        }
        y = y + 1;
    }
    Some(Picture { width, height, pixels: img })
}

} // verus!
