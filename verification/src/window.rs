//! A textual view of the grid around a cell, for a terminal.

use vstd::prelude::*;
use vstd::string::StringExecFns;
use crate::grid::{Board, TileStore};
use crate::tile::{ACTIVE, NOT_ACTIVE, UNPROCESSED};

verus! {

/// Why no text can be shown.
#[derive(Debug, Clone, Copy, PartialEq, Eq, Structural)]
pub enum RenderError {
    /// The tile at `(x, y)` has no text.
    UnexpectedTile { x: usize, y: usize, tile: u8 },
}

/// The text of a tile: a blank for background, the number of active
/// neighbours that a clue can still take, `#` for an unprocessed cell, a dim
/// `.` for an inactive cell, a bright `#` for an active cell, `?` for a
/// marker. Other tiles have none.
pub open spec fn tile_text(t: u8) -> Option<Seq<char>> {
    if t == 0 {
        Some(" "@)
    } else if t == 1 {
        Some("0"@)
    } else if t == 2 {
        Some("1"@)
    } else if t == 3 {
        Some("2"@)
    } else if t == UNPROCESSED {
        Some("#"@)
    } else if t == NOT_ACTIVE {
        Some("\x1b[37;2m.\x1b[0m"@)
    } else if t == ACTIVE {
        Some("\x1b[33;1m#\x1b[0m"@)
    } else if t == 10 {
        Some("?"@)
    } else {
        None
    }
}

/// The text of a tile.
pub fn text_of(t: u8) -> (r: Option<&'static str>)
    ensures
        match r {
            Some(s) => tile_text(t) == Some(s@),
            None => tile_text(t) is None,
        },
{
    if t == 0 {
        Some(" ")
    } else if t == 1 {
        Some("0")
    } else if t == 2 {
        Some("1")
    } else if t == 3 {
        Some("2")
    } else if t == UNPROCESSED {
        Some("#")
    } else if t == NOT_ACTIVE {
        Some("\x1b[37;2m.\x1b[0m")
    } else if t == ACTIVE {
        Some("\x1b[33;1m#\x1b[0m")
    } else if t == 10 {
        Some("?")
    } else {
        None
    }
}

/// The text of a tile in the view: the centre is set off in bold red.
pub open spec fn cell_text(text: Seq<char>, centre: bool) -> Seq<char> {
    if centre {
        "\x1b[31;1m"@ + text + "\x1b[0m"@
    } else {
        text
    }
}

/// The text of the cells `x0` up to, not including, `x` of row `y`, or the
/// first cell among them without a text.
pub open spec fn line(b: Board, gx: int, gy: int, y: int, x0: int, x: int) -> Result<
    Seq<char>,
    RenderError,
>
    decreases x - x0,
{
    if x <= x0 {
        Ok(Seq::empty())
    } else {
        match line(b, gx, gy, y, x0, x - 1) {
            Err(e) => Err(e),
            Ok(text) => match tile_text(b.tile(x - 1, y)) {
                None => Err(
                    RenderError::UnexpectedTile {
                        x: (x - 1) as usize,
                        y: y as usize,
                        tile: b.tile(x - 1, y),
                    },
                ),
                Some(t) => Ok(text + cell_text(t, x - 1 == gx && y == gy)),
            },
        }
    }
}

/// The lines of the rows `y0` up to, not including, `y`, or the first cell
/// among them without a text.
pub open spec fn lines(b: Board, gx: int, gy: int, x0: int, x1: int, y0: int, y: int) -> Result<
    Seq<Seq<char>>,
    RenderError,
>
    decreases y - y0,
{
    if y <= y0 {
        Ok(Seq::empty())
    } else {
        match lines(b, gx, gy, x0, x1, y0, y - 1) {
            Err(e) => Err(e),
            Ok(rows) => match line(b, gx, gy, y - 1, x0, x1) {
                Err(e) => Err(e),
                Ok(row) => Ok(rows.push(row)),
            },
        }
    }
}

/// The first coordinate of the view along one axis.
pub open spec fn view_from(centre: int, size: int) -> int {
    if centre >= size {
        centre - size
    } else {
        0
    }
}

/// The coordinate behind the last of the view along one axis.
pub open spec fn view_to(centre: int, size: int, limit: int) -> int {
    if centre + size <= limit {
        centre + size
    } else {
        limit
    }
}

/// The view around `(gx, gy)`: the rows from `gy - size` up to, not
/// including, `gy + size`, and the same for the columns, as far as they lie
/// inside the board.
pub open spec fn view_text(b: Board, gx: int, gy: int, size: int) -> Result<
    Seq<Seq<char>>,
    RenderError,
> {
    lines(
        b,
        gx,
        gy,
        view_from(gx, size),
        view_to(gx, size, b.width as int),
        view_from(gy, size),
        view_to(gy, size, b.height as int),
    )
}

/// The contents of a list of strings.
pub open spec fn texts_view(v: Seq<String>) -> Seq<Seq<char>> {
    Seq::new(v.len(), |i: int| v[i]@)
}

/// The text of one row of the view.
fn line_of<T: TileStore>(map: &T, gx: usize, gy: usize, y: usize, x0: usize, x1: usize) -> (r:
    Result<String, RenderError>)
    requires
        map.wf(),
        y < map@.height,
        x1 <= map@.width,
    ensures
        match r {
            Ok(text) => line(map@, gx as int, gy as int, y as int, x0 as int, x1 as int) == Ok::<
                Seq<char>,
                RenderError,
            >(text@),
            Err(e) => line(map@, gx as int, gy as int, y as int, x0 as int, x1 as int) == Err::<
                Seq<char>,
                RenderError,
            >(e),
        },
{
    let ghost b = map@;
    let mut text = String::new();
    let mut x: usize = x0;
    assert(text@ =~= Seq::<char>::empty());
    while x < x1
        invariant
            x0 <= x,
            x <= x1 || (x1 < x0 && x == x0),
            map.wf(),
            b == map@,
            y < b.height,
            x1 <= b.width,
            line(b, gx as int, gy as int, y as int, x0 as int, x as int) == Ok::<
                Seq<char>,
                RenderError,
            >(text@),
        decreases x1 - x,
    {
        let tile = map.get(x, y);
        match text_of(tile) {
            None => {
                proof {
                    lemma_line_error(b, gx as int, gy as int, y as int, x0 as int, x + 1, x1 as int);
                }
                return Err(RenderError::UnexpectedTile { x, y, tile });
            },
            Some(t) => {
                let ghost had = text@;
                if x == gx && y == gy {
                    text.append("\x1b[31;1m");
                    text.append(t);
                    text.append("\x1b[0m");
                } else {
                    text.append(t);
                }
                assert(text@ =~= had + cell_text(t@, x == gx && y == gy));
            },
        }
        x = x + 1;
    }
    proof {
        if x1 < x0 {
            assert(line(b, gx as int, gy as int, y as int, x0 as int, x0 as int) == Ok::<
                Seq<char>,
                RenderError,
            >(Seq::empty()));
            assert(line(b, gx as int, gy as int, y as int, x0 as int, x1 as int) == Ok::<
                Seq<char>,
                RenderError,
            >(Seq::empty()));
        }
    }
    Ok(text)
}

/// An error among the first cells of a row is the error of the row.
pub proof fn lemma_line_error(b: Board, gx: int, gy: int, y: int, x0: int, x: int, x1: int)
    requires
        x <= x1,
        line(b, gx, gy, y, x0, x) is Err,
    ensures
        line(b, gx, gy, y, x0, x1) == line(b, gx, gy, y, x0, x),
    decreases x1 - x,
{
    if x < x1 {
        lemma_line_error(b, gx, gy, y, x0, x, x1 - 1);
    }
}

/// An error among the first rows is the error of the view.
pub proof fn lemma_lines_error(
    b: Board,
    gx: int,
    gy: int,
    x0: int,
    x1: int,
    y0: int,
    y: int,
    y1: int,
)
    requires
        y <= y1,
        lines(b, gx, gy, x0, x1, y0, y) is Err,
    ensures
        lines(b, gx, gy, x0, x1, y0, y1) == lines(b, gx, gy, x0, x1, y0, y),
    decreases y1 - y,
{
    if y < y1 {
        lemma_lines_error(b, gx, gy, x0, x1, y0, y, y1 - 1);
    }
}

/// The text of the view around `(gx, gy)`, one string for each row: see
/// `view_text`.
pub fn show_at<T: TileStore>(map: &T, gx: usize, gy: usize, size: usize) -> (r: Result<
    Vec<String>,
    RenderError,
>)
    requires
        map.wf(),
    ensures
        match r {
            Ok(rows) => view_text(map@, gx as int, gy as int, size as int) == Ok::<
                Seq<Seq<char>>,
                RenderError,
            >(texts_view(rows@)),
            Err(e) => view_text(map@, gx as int, gy as int, size as int) == Err::<
                Seq<Seq<char>>,
                RenderError,
            >(e),
        },
{
    let ghost b = map@;
    let w = map.width();
    let h = map.height();
    let x0 = if gx >= size {
        gx - size
    } else {
        0
    };
    let y0 = if gy >= size {
        gy - size
    } else {
        0
    };
    let x1 = match gx.checked_add(size) {
        Some(x) => if x <= w {
            x
        } else {
            w
        },
        None => w,
    };
    let y1 = match gy.checked_add(size) {
        Some(y) => if y <= h {
            y
        } else {
            h
        },
        None => h,
    };
    let mut rows: Vec<String> = Vec::new();
    let mut y: usize = y0;
    assert(texts_view(rows@) =~= Seq::<Seq<char>>::empty());
    while y < y1
        invariant
            y0 <= y,
            y <= y1 || (y1 < y0 && y == y0),
            map.wf(),
            b == map@,
            y1 <= b.height,
            x1 <= b.width,
            x0 == view_from(gx as int, size as int),
            y0 == view_from(gy as int, size as int),
            x1 == view_to(gx as int, size as int, b.width as int),
            y1 == view_to(gy as int, size as int, b.height as int),
            lines(b, gx as int, gy as int, x0 as int, x1 as int, y0 as int, y as int) == Ok::<
                Seq<Seq<char>>,
                RenderError,
            >(texts_view(rows@)),
        decreases y1 - y,
    {
        let ghost had = texts_view(rows@);
        match line_of(map, gx, gy, y, x0, x1) {
            Err(e) => {
                proof {
                    lemma_lines_error(
                        b,
                        gx as int,
                        gy as int,
                        x0 as int,
                        x1 as int,
                        y0 as int,
                        y + 1,
                        y1 as int,
                    );
                }
                return Err(e);
            },
            Ok(row) => {
                rows.push(row);
                assert(texts_view(rows@) =~= had.push(row@));
            },
        }
        y = y + 1;
    }
    proof {
        if y1 < y0 {
            assert(lines(b, gx as int, gy as int, x0 as int, x1 as int, y0 as int, y0 as int)
                == Ok::<Seq<Seq<char>>, RenderError>(Seq::empty()));
            assert(lines(b, gx as int, gy as int, x0 as int, x1 as int, y0 as int, y1 as int)
                == Ok::<Seq<Seq<char>>, RenderError>(Seq::empty()));
        }
    }
    Ok(rows)
}

} // verus!
