//! The letters by which an operator names the cells of a shape.
//!
//! The cells of a shape are lettered row by row, from left to right, with
//! the characters `0` to `9` and `A` to `Z`.

use vstd::prelude::*;
use crate::cells::{contains_cell, Coord};

verus! {

/// The characters that name the cells of a shape, in their order.
pub const SHAPE_ALPHABET: &'static str = "0123456789ABCDEFGHIJKLMNOPQRSTUVWXYZ";

/// The number of characters in the alphabet.
pub const ALPHABET_LEN: usize = 36;

/// The character at position `k` of the alphabet.
pub open spec fn letter(k: int) -> char {
    if k < 10 {
        ((48 + k) as u8) as char
    } else {
        ((55 + k) as u8) as char
    }
}

/// The position of `c` in the alphabet, if it is one of its characters.
pub open spec fn letter_rank(c: char) -> Option<int> {
    if '0' <= c && c <= '9' {
        Some(c as int - 48)
    } else if 'A' <= c && c <= 'Z' {
        Some(c as int - 55)
    } else {
        None
    }
}

/// `letter` and `letter_rank` undo each other.
pub proof fn lemma_letter_rank(k: int)
    requires
        0 <= k < ALPHABET_LEN,
    ensures
        letter_rank(letter(k)) == Some(k),
{
}

/// `letter` and `letter_rank` undo each other.
pub proof fn lemma_rank_letter(c: char)
    requires
        letter_rank(c) is Some,
    ensures
        0 <= letter_rank(c).unwrap() < ALPHABET_LEN,
        letter(letter_rank(c).unwrap()) == c,
{
}

/// The character at position `k` of the alphabet.
pub fn letter_of(k: usize) -> (c: char)
    requires
        k < ALPHABET_LEN,
    ensures
        c == letter(k as int),
{
    if k < 10 {
        (48 + k as u8) as char
    } else {
        (55 + k as u8) as char
    }
}

/// The position of `c` in the alphabet.
pub fn rank_of(c: char) -> (r: Option<usize>)
    ensures
        match r {
            Some(k) => letter_rank(c) == Some(k as int),
            None => letter_rank(c) is None,
        },
{
    if '0' <= c && c <= '9' {
        Some((c as u32 - 48) as usize)
    } else if 'A' <= c && c <= 'Z' {
        Some((c as u32 - 55) as usize)
    } else {
        None
    }
}

/// The greatest `x` among `cells`; 0 for the empty list.
pub open spec fn max_x(cells: Seq<Coord>) -> usize
    decreases cells.len(),
{
    if cells.len() == 0 {
        0
    } else {
        let m = max_x(cells.drop_last());
        if cells.last().0 > m {
            cells.last().0
        } else {
            m
        }
    }
}

/// The greatest `y` among `cells`; 0 for the empty list.
pub open spec fn max_y(cells: Seq<Coord>) -> usize
    decreases cells.len(),
{
    if cells.len() == 0 {
        0
    } else {
        let m = max_y(cells.drop_last());
        if cells.last().1 > m {
            cells.last().1
        } else {
            m
        }
    }
}

/// The greatest `x` and the greatest `y` among `cells`.
pub fn extent(cells: &[Coord]) -> (r: (usize, usize))
    ensures
        r.0 == max_x(cells@),
        r.1 == max_y(cells@),
{
    let mut mx: usize = 0;
    let mut my: usize = 0;
    let mut i: usize = 0;
    assert(cells@.take(0) =~= Seq::<Coord>::empty());
    while i < cells.len()
        invariant
            i <= cells.len(),
            mx == max_x(cells@.take(i as int)),
            my == max_y(cells@.take(i as int)),
        decreases cells.len() - i,
    {
        let c = cells[i];
        proof {
            let next = cells@.take(i + 1);
            assert(next.drop_last() =~= cells@.take(i as int));
            assert(next.last() == c);
        }
        if c.0 > mx {
            mx = c.0;
        }
        if c.1 > my {
            my = c.1;
        }
        i = i + 1;
    }
    assert(cells@.take(cells@.len() as int) =~= cells@);
    (mx, my)
}

/// The cells `(x, y)` of the group with `x < n`, from left to right.
pub open spec fn row_cells(group: Seq<Coord>, y: int, n: int) -> Seq<Coord>
    decreases n,
{
    if n <= 0 {
        Seq::empty()
    } else if group.contains(((n - 1) as usize, y as usize)) {
        row_cells(group, y, n - 1).push(((n - 1) as usize, y as usize))
    } else {
        row_cells(group, y, n - 1)
    }
}

/// The cells of the group in the first `rows` rows of a box of the given
/// width, row by row.
pub open spec fn rows_cells(group: Seq<Coord>, width: int, rows: int) -> Seq<Coord>
    decreases rows,
{
    if rows <= 0 {
        Seq::empty()
    } else {
        rows_cells(group, width, rows - 1) + row_cells(group, rows - 1, width)
    }
}

/// The cells of the group in the order of their letters: cell `k` of this
/// list has the letter `k`.
pub open spec fn labelled(group: Seq<Coord>) -> Seq<Coord> {
    rows_cells(group, max_x(group) + 1, max_y(group) + 1)
}

/// The number of cells that come before `(x, y)` in the order of the
/// letters: the position of the letter of `(x, y)`.
pub open spec fn rank(group: Seq<Coord>, x: int, y: int) -> int {
    (rows_cells(group, max_x(group) + 1, y) + row_cells(group, y, x)).len() as int
}

/// The cells of the group in the order of their letters.
pub fn labelled_cells(group: &[Coord]) -> (r: Vec<Coord>)
    requires
        group@.len() > 0,
    ensures
        r@ == labelled(group@),
{
    let (mx, my) = extent(group);
    let ghost w = mx + 1;
    let mut out: Vec<Coord> = Vec::new();
    let mut y: usize = 0;
    loop
        invariant_except_break
            out@ == rows_cells(group@, w, y as int),
        invariant
            y <= my,
            mx == max_x(group@),
            my == max_y(group@),
            w == mx + 1,
        ensures
            out@ == rows_cells(group@, w, my + 1),
        decreases my - y,
    {
        let ghost before = out@;
        let mut x: usize = 0;
        loop
            invariant_except_break
                out@ == before + row_cells(group@, y as int, x as int),
            invariant
                x <= mx,
                y <= my,
            ensures
                out@ == before + row_cells(group@, y as int, mx + 1),
            decreases mx - x,
        {
            if contains_cell(group, (x, y)) {
                out.push((x, y));
            }
            assert(out@ =~= before + row_cells(group@, y as int, x + 1));
            if x == mx {
                break ;
            }
            x = x + 1;
        }
        if y == my {
            break ;
        }
        y = y + 1;
    }
    out
}

} // verus!
