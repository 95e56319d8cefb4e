//! The cells at which a run starts: single cells, or every so many cells of
//! a rectangle.

use vstd::prelude::*;
use crate::cells::Coord;

verus! {

/// How many numbers lie between `from` and `to`, both counted.
pub open spec fn span(from: int, to: int) -> int {
    if from <= to {
        to - from + 1
    } else {
        0
    }
}

/// The numbers `from`, `from + step`, ... up to `to`, as far as they lie
/// below `limit`.
pub open spec fn steps(from: int, to: int, step: int, limit: int) -> Seq<usize>
    decreases span(from, to),
{
    if from > to || step <= 0 || from < 0 {
        Seq::empty()
    } else if from < limit {
        seq![from as usize] + steps(from + step, to, step, limit)
    } else {
        steps(from + step, to, step, limit)
    }
}

/// The cells of column `x` with the given rows.
pub open spec fn column(x: usize, ys: Seq<usize>) -> Seq<Coord> {
    Seq::new(ys.len(), |j: int| (x, ys[j]))
}

/// The cells of the columns `from`, `from + step`, ... up to `to`, as far
/// as they lie below `limit`, each with the given rows: column after column.
pub open spec fn columns(from: int, to: int, step: int, limit: int, ys: Seq<usize>) -> Seq<Coord>
    decreases span(from, to),
{
    if from > to || step <= 0 || from < 0 {
        Seq::empty()
    } else if from < limit {
        column(from as usize, ys) + columns(from + step, to, step, limit, ys)
    } else {
        columns(from + step, to, step, limit, ys)
    }
}

/// The seeds of a rectangle: every `step_x`-th column from `x0` to `x1` and
/// in it every `step_y`-th row from `y0` to `y1`, as far as the cells lie
/// inside a grid of the given dimensions.
pub open spec fn seeds(
    x0: int,
    x1: int,
    y0: int,
    y1: int,
    step_x: int,
    step_y: int,
    width: int,
    height: int,
) -> Seq<Coord> {
    columns(x0, x1, step_x, width, steps(y0, y1, step_y, height))
}

/// Beyond the limit there is nothing.
pub proof fn lemma_steps_beyond(from: int, to: int, step: int, limit: int)
    requires
        from >= limit,
    ensures
        steps(from, to, step, limit) == Seq::<usize>::empty(),
    decreases span(from, to),
{
    if !(from > to || step <= 0 || from < 0) {
        lemma_steps_beyond(from + step, to, step, limit);
    }
}

/// Beyond the limit there is nothing.
pub proof fn lemma_columns_beyond(from: int, to: int, step: int, limit: int, ys: Seq<usize>)
    requires
        from >= limit,
    ensures
        columns(from, to, step, limit, ys) == Seq::<Coord>::empty(),
    decreases span(from, to),
{
    if !(from > to || step <= 0 || from < 0) {
        lemma_columns_beyond(from + step, to, step, limit, ys);
    }
}

/// The numbers `from`, `from + step`, ... up to `to` that lie below `limit`.
pub fn steps_of(from: usize, to: usize, step: usize, limit: usize) -> (r: Vec<usize>)
    requires
        step > 0,
    ensures
        r@ == steps(from as int, to as int, step as int, limit as int),
{
    let ghost all = steps(from as int, to as int, step as int, limit as int);
    let mut out: Vec<usize> = Vec::new();
    let mut v: usize = from;
    loop
        invariant_except_break
            out@ + steps(v as int, to as int, step as int, limit as int) == all,
        invariant
            step > 0,
        ensures
            out@ == all,
        decreases span(v as int, to as int),
    {
        if v > to || v >= limit {
            proof {
                if v >= limit {
                    lemma_steps_beyond(v as int, to as int, step as int, limit as int);
                }
                assert(out@ + Seq::<usize>::empty() =~= out@);
            }
            break ;
        }
        let ghost had = out@;
        let ghost rest = steps(v + step, to as int, step as int, limit as int);
        out.push(v);
        assert(out@ + rest =~= had + (seq![v] + rest));
        match v.checked_add(step) {
            Some(next) => {
                v = next;
            },
            None => {
                assert(rest =~= Seq::<usize>::empty());
                assert(out@ + Seq::<usize>::empty() =~= out@);
                break ;
            },
        }
    }
    out
}

/// The seeds of a rectangle: see `seeds`.
pub fn seed_range(
    x0: usize,
    x1: usize,
    y0: usize,
    y1: usize,
    step_x: usize,
    step_y: usize,
    width: usize,
    height: usize,
) -> (r: Vec<Coord>)
    requires
        step_x > 0,
        step_y > 0,
    ensures
        r@ == seeds(
            x0 as int,
            x1 as int,
            y0 as int,
            y1 as int,
            step_x as int,
            step_y as int,
            width as int,
            height as int,
        ),
{
    let ys = steps_of(y0, y1, step_y, height);
    let ghost all = columns(x0 as int, x1 as int, step_x as int, width as int, ys@);
    let mut out: Vec<Coord> = Vec::new();
    let mut x: usize = x0;
    loop
        invariant_except_break
            out@ + columns(x as int, x1 as int, step_x as int, width as int, ys@) == all,
        invariant
            step_x > 0,
        ensures
            out@ == all,
        decreases span(x as int, x1 as int),
    {
        if x > x1 || x >= width {
            proof {
                if x >= width {
                    lemma_columns_beyond(x as int, x1 as int, step_x as int, width as int, ys@);
                }
                assert(out@ + Seq::<Coord>::empty() =~= out@);
            }
            break ;
        }
        let ghost had = out@;
        let ghost rest = columns(x + step_x, x1 as int, step_x as int, width as int, ys@);
        let mut j: usize = 0;
        while j < ys.len()
            invariant
                j <= ys@.len(),
                out@ == had + column(x, ys@).take(j as int),
            decreases ys.len() - j,
        {
            out.push((x, ys[j]));
            assert(column(x, ys@).take(j + 1) =~= column(x, ys@).take(j as int).push((x, ys@[j as int])));
            j = j + 1;
        }
        proof {
            assert(column(x, ys@).take(ys@.len() as int) =~= column(x, ys@));
            assert(out@ + rest =~= had + (column(x, ys@) + rest));
        }
        match x.checked_add(step_x) {
            Some(next) => {
                x = next;
            },
            None => {
                assert(rest =~= Seq::<Coord>::empty());
                assert(out@ + Seq::<Coord>::empty() =~= out@);
                break ;
            },
        }
    }
    out
}

} // verus!
