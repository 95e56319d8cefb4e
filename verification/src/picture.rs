//! Pictures of a shape for the operator: its outline with the letters of its
//! cells, and one picture for each candidate solution.

use vstd::prelude::*;
use crate::cells::{contains_cell, Coord};
use crate::labels::{
    extent, labelled, labelled_cells, letter, letter_of, max_x, max_y, rank, row_cells,
    rows_cells, ALPHABET_LEN,
};
use crate::shape::Shape;

verus! {

/// The character that the outline shows at `(x, y)`: the letter of a cell
/// of the group, a blank elsewhere.
pub open spec fn outline_char(group: Seq<Coord>, x: int, y: int) -> char {
    if group.contains((x as usize, y as usize)) {
        letter(rank(group, x, y))
    } else {
        ' '
    }
}

/// The character that the picture of a candidate shows at `(x, y)`: `#` for
/// an active cell of the group, `.` for another cell of the group, a blank
/// elsewhere.
pub open spec fn solution_char(group: Seq<Coord>, solution: Seq<Coord>, x: int, y: int) -> char {
    if group.contains((x as usize, y as usize)) {
        if solution.contains((x as usize, y as usize)) {
            '#'
        } else {
            '.'
        }
    } else {
        ' '
    }
}

/// The outline of the group: one row for each `y` up to the greatest, one
/// character for each `x` up to the greatest.
pub open spec fn outline(group: Seq<Coord>) -> Seq<Seq<char>> {
    Seq::new(
        (max_y(group) + 1) as nat,
        |y: int| Seq::new((max_x(group) + 1) as nat, |x: int| outline_char(group, x, y)),
    )
}

/// The picture of one candidate.
pub open spec fn solution_picture(group: Seq<Coord>, solution: Seq<Coord>) -> Seq<Seq<char>> {
    Seq::new(
        (max_y(group) + 1) as nat,
        |y: int| Seq::new((max_x(group) + 1) as nat, |x: int| solution_char(group, solution, x, y)),
    )
}

/// The pictures of a shape.
pub struct ShapePicture {
    /// The outline with the letters of the cells.
    pub outline: Vec<Vec<char>>,
    /// One picture for each candidate, where the shape is curated.
    pub solutions: Option<Vec<Vec<Vec<char>>>>,
}

/// The contents of a list of rows.
pub open spec fn rows_view(rows: Seq<Vec<char>>) -> Seq<Seq<char>> {
    Seq::new(rows.len(), |i: int| rows[i]@)
}

/// Row after row holds no fewer cells.
pub proof fn lemma_rows_cells_grow(group: Seq<Coord>, width: int, a: int, b: int)
    requires
        0 <= a <= b,
    ensures
        rows_cells(group, width, a).len() <= rows_cells(group, width, b).len(),
    decreases b,
{
    if a < b {
        lemma_rows_cells_grow(group, width, a, b - 1);
    }
}

/// A longer part of a row holds no fewer cells.
pub proof fn lemma_row_cells_grow(group: Seq<Coord>, y: int, a: int, b: int)
    requires
        0 <= a <= b,
    ensures
        row_cells(group, y, a).len() <= row_cells(group, y, b).len(),
    decreases b,
{
    if a < b {
        lemma_row_cells_grow(group, y, a, b - 1);
    }
}

/// A cell of the group has a letter position below the number of lettered
/// cells.
pub proof fn lemma_rank_bound(group: Seq<Coord>, x: int, y: int)
    requires
        0 <= x <= max_x(group),
        0 <= y <= max_y(group),
        group.contains((x as usize, y as usize)),
    ensures
        0 <= rank(group, x, y) < labelled(group).len(),
{
    let w = max_x(group) + 1;
    lemma_rows_cells_grow(group, w, y + 1, max_y(group) + 1);
    lemma_row_cells_grow(group, y, x + 1, w);
}

/// One row of the outline. `before` is the number of cells of the group in
/// the rows above.
fn outline_row(group: &[Coord], y: usize, mx: usize, before: usize) -> (r: (Vec<char>, usize))
    requires
        mx == max_x(group@),
        y <= max_y(group@),
        before == rows_cells(group@, mx + 1, y as int).len(),
        labelled(group@).len() <= ALPHABET_LEN,
    ensures
        r.0@ == Seq::new((mx + 1) as nat, |x: int| outline_char(group@, x, y as int)),
        r.1 == rows_cells(group@, mx + 1, y + 1).len(),
{
    let ghost above = rows_cells(group@, mx + 1, y as int);
    let mut row: Vec<char> = Vec::new();
    let mut k: usize = before;
    let mut x: usize = 0;
    loop
        invariant_except_break
            row@.len() == x,
            k == before + row_cells(group@, y as int, x as int).len(),
        invariant
            x <= mx,
            mx == max_x(group@),
            y <= max_y(group@),
            above == rows_cells(group@, mx + 1, y as int),
            before == above.len(),
            labelled(group@).len() <= ALPHABET_LEN,
            forall|j: int| 0 <= j < row@.len() ==> row@[j] == outline_char(group@, j, y as int),
        ensures
            row@.len() == mx + 1,
            k == before + row_cells(group@, y as int, mx + 1).len(),
        decreases mx - x,
    {
        if contains_cell(group, (x, y)) {
            proof {
                lemma_rank_bound(group@, x as int, y as int);
            }
            row.push(letter_of(k));
            k = k + 1;
        } else {
            row.push(' ');
        }
        if x == mx {
            break ;
        }
        x = x + 1;
    }
    assert(row@ =~= Seq::new((mx + 1) as nat, |x: int| outline_char(group@, x, y as int)));
    (row, k)
}

/// One row of the picture of a candidate.
fn solution_row(group: &[Coord], solution: &[Coord], y: usize, mx: usize) -> (row: Vec<char>)
    ensures
        row@ == Seq::new((mx + 1) as nat, |x: int| solution_char(group@, solution@, x, y as int)),
{
    let mut row: Vec<char> = Vec::new();
    let mut x: usize = 0;
    loop
        invariant_except_break
            row@.len() == x,
        invariant
            x <= mx,
            forall|j: int|
                0 <= j < row@.len() ==> row@[j] == solution_char(group@, solution@, j, y as int),
        ensures
            row@.len() == mx + 1,
        decreases mx - x,
    {
        if contains_cell(group, (x, y)) {
            if contains_cell(solution, (x, y)) {
                row.push('#');
            } else {
                row.push('.');
            }
        } else {
            row.push(' ');
        }
        if x == mx {
            break ;
        }
        x = x + 1;
    }
    assert(row@ =~= Seq::new(
        (mx + 1) as nat,
        |x: int| solution_char(group@, solution@, x, y as int),
    ));
    row
}

/// The picture of one candidate of a group.
fn picture_of(group: &[Coord], solution: &[Coord], mx: usize, my: usize) -> (rows: Vec<Vec<char>>)
    requires
        mx == max_x(group@),
        my == max_y(group@),
    ensures
        rows_view(rows@) == solution_picture(group@, solution@),
{
    let mut rows: Vec<Vec<char>> = Vec::new();
    let mut y: usize = 0;
    loop
        invariant_except_break
            rows@.len() == y,
        invariant
            y <= my,
            mx == max_x(group@),
            my == max_y(group@),
            forall|j: int|
                0 <= j < rows@.len() ==> (#[trigger] rows@[j])@ == solution_picture(
                    group@,
                    solution@,
                )[j],
        ensures
            rows@.len() == my + 1,
        decreases my - y,
    {
        rows.push(solution_row(group, solution, y, mx));
        if y == my {
            break ;
        }
        y = y + 1;
    }
    assert(rows_view(rows@) =~= solution_picture(group@, solution@));
    rows
}

/// The pictures of a shape: its outline, and its candidates where it has
/// any. `None` for a shape without cells, and for one with more cells than
/// there are letters.
pub fn show_shape(shape: &Shape) -> (r: Option<ShapePicture>)
    ensures
        match r {
            None => shape@.group.len() == 0 || labelled(shape@.group).len() > ALPHABET_LEN,
            Some(p) => {
                &&& shape@.group.len() > 0
                &&& labelled(shape@.group).len() <= ALPHABET_LEN
                &&& rows_view(p.outline@) == outline(shape@.group)
                &&& match (p.solutions, shape@.solutions) {
                    (Some(pictures), Some(solutions)) => pictures@.len() == solutions.len()
                        && forall|i: int|
                        0 <= i < solutions.len() ==> rows_view((#[trigger] pictures@[i])@)
                            == solution_picture(shape@.group, solutions[i]),
                    (None, None) => true,
                    _ => false,
                }
            },
        },
{
    let group = shape.group.as_slice();
    if group.len() == 0 {
        return None;
    }
    let cells = labelled_cells(group);
    if cells.len() > ALPHABET_LEN {
        return None;
    }
    let (mx, my) = extent(group);
    let mut rows: Vec<Vec<char>> = Vec::new();
    let mut before: usize = 0;
    let mut y: usize = 0;
    loop
        invariant_except_break
            rows@.len() == y,
            before == rows_cells(group@, mx + 1, y as int).len(),
        invariant
            y <= my,
            mx == max_x(group@),
            my == max_y(group@),
            labelled(group@).len() <= ALPHABET_LEN,
            forall|j: int| 0 <= j < rows@.len() ==> (#[trigger] rows@[j])@ == outline(group@)[j],
        ensures
            rows@.len() == my + 1,
        decreases my - y,
    {
        let (row, after) = outline_row(group, y, mx, before);
        rows.push(row);
        before = after;
        if y == my {
            break ;
        }
        y = y + 1;
    }
    assert(rows_view(rows@) =~= outline(group@));
    let solutions = match &shape.solutions {
        None => None,
        Some(solutions) => {
            let mut pictures: Vec<Vec<Vec<char>>> = Vec::new();
            let mut i: usize = 0;
            while i < solutions.len()
                invariant
                    i <= solutions@.len(),
                    mx == max_x(group@),
                    my == max_y(group@),
                    pictures@.len() == i,
                    forall|j: int|
                        0 <= j < i ==> rows_view((#[trigger] pictures@[j])@) == solution_picture(
                            group@,
                            solutions@[j]@,
                        ),
                decreases solutions.len() - i,
            {
                pictures.push(picture_of(group, solutions[i].as_slice(), mx, my));
                i = i + 1;
            }
            Some(pictures)
        },
    };
    Some(ShapePicture { outline: rows, solutions })
}

} // verus!
