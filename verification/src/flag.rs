//! Reading the message out of a solved grid.
//!
//! The message stands in one row, one bit every few columns: an active cell
//! is a 1, an inactive cell a 0. Eight samples make a byte, the leftmost the
//! highest bit.

use vstd::prelude::*;
use crate::grid::{Board, TileStore};
use crate::tile::{ACTIVE, NOT_ACTIVE};

verus! {

/// The row that holds the message.
pub const FLAG_ROW: usize = 5;

/// The column of the first sample.
pub const FLAG_FIRST_COLUMN: usize = 8427;

/// The distance between two samples.
pub const FLAG_STEP: usize = 24;

/// The number of bytes of the message.
pub const FLAG_BYTES: usize = 46;

/// Why no message can be read.
#[derive(Debug, Clone, Copy, PartialEq, Eq, Structural)]
pub enum FlagError {
    /// A sample lies outside the grid.
    OutOfBounds,
    /// The sampled cell in column `x` is neither active nor inactive.
    Undecided { x: usize, tile: u8 },
}

/// The column of sample `k`.
pub open spec fn sample_column(first: int, step: int, k: int) -> int {
    first + step * k
}

/// Whether the tile carries a bit.
pub open spec fn decided(t: u8) -> bool {
    t == ACTIVE || t == NOT_ACTIVE
}

/// The bit that sample `k` of row `y` carries: 1 for an active cell.
pub open spec fn sample_bit(b: Board, y: int, first: int, step: int, k: int) -> int {
    if b.tile(sample_column(first, step, k), y) == ACTIVE {
        1
    } else {
        0
    }
}

/// Byte `m` of the message: samples `8m` to `8m + 7`, highest bit first.
pub open spec fn message_byte(b: Board, y: int, first: int, step: int, m: int) -> int {
    128 * sample_bit(b, y, first, step, 8 * m) + 64 * sample_bit(b, y, first, step, 8 * m + 1) + 32
        * sample_bit(b, y, first, step, 8 * m + 2) + 16 * sample_bit(b, y, first, step, 8 * m + 3)
        + 8 * sample_bit(b, y, first, step, 8 * m + 4) + 4 * sample_bit(
        b,
        y,
        first,
        step,
        8 * m + 5,
    ) + 2 * sample_bit(b, y, first, step, 8 * m + 6) + sample_bit(b, y, first, step, 8 * m + 7)
}

/// The last of the first `n` samples that carries no bit, if there is one.
pub open spec fn last_undecided(b: Board, y: int, first: int, step: int, n: int) -> Option<int>
    decreases n,
{
    if n <= 0 {
        None
    } else if !decided(b.tile(sample_column(first, step, n - 1), y)) {
        Some(n - 1)
    } else {
        last_undecided(b, y, first, step, n - 1)
    }
}

/// The message of `bytes` bytes in row `y`. All samples must lie inside the
/// grid. The samples are read from the right: the first that is neither
/// active nor inactive is the error.
pub open spec fn message(b: Board, y: int, first: int, step: int, bytes: int) -> Result<
    Seq<u8>,
    FlagError,
> {
    if bytes > 0 && !b.contains(sample_column(first, step, 8 * bytes - 1), y) {
        Err(FlagError::OutOfBounds)
    } else {
        match last_undecided(b, y, first, step, 8 * bytes) {
            Some(k) => Err(
                FlagError::Undecided {
                    x: sample_column(first, step, k) as usize,
                    tile: b.tile(sample_column(first, step, k), y),
                },
            ),
            None => Ok(Seq::new(bytes as nat, |m: int| message_byte(b, y, first, step, m) as u8)),
        }
    }
}

/// Sample `k + 1` lies one step to the right of sample `k`.
pub proof fn lemma_next_sample(first: int, step: int, k: int)
    ensures
        sample_column(first, step, k + 1) == sample_column(first, step, k) + step,
{
    assert(step * (k + 1) == step * k + step) by (nonlinear_arith);
}

/// The bit of the sample in column `x` of row `y`.
fn read_bit<T: TileStore>(map: &T, x: usize, y: usize) -> (bit: u8)
    requires
        map.wf(),
        map@.contains(x as int, y as int),
    ensures
        bit == (if map@.tile(x as int, y as int) == ACTIVE {
            1int
        } else {
            0int
        }),
{
    if map.get(x, y) == ACTIVE {
        1
    } else {
        0
    }
}

/// Reads a message of `bytes` bytes from row `y`: sample `k` stands in
/// column `first + step * k`. See `message`.
pub fn decode_row<T: TileStore>(map: &T, y: usize, first: usize, step: usize, bytes: usize) -> (r:
    Result<Vec<u8>, FlagError>)
    requires
        map.wf(),
    ensures
        match r {
            Ok(text) => message(map@, y as int, first as int, step as int, bytes as int) == Ok::<
                Seq<u8>,
                FlagError,
            >(text@),
            Err(e) => message(map@, y as int, first as int, step as int, bytes as int) == Err::<
                Seq<u8>,
                FlagError,
            >(e),
        },
{
    if bytes == 0 {
        let out: Vec<u8> = Vec::new();
        assert(out@ =~= Seq::new(0nat, |m: int| message_byte(map@, y as int, first as int, step as int, m) as u8));
        return Ok(out);
    }
    let ghost b = map@;
    let w = map.width();
    let h = map.height();
    proof {
        map.lemma_board_wf();
    }
    // the column of the last sample
    let samples = match bytes.checked_mul(8) {
        Some(n) => n,
        None => {
            proof {
                if step >= 1 {
                    assert(first + step * (8 * bytes - 1) >= 8 * bytes - 1) by (nonlinear_arith)
                        requires
                            step >= 1,
                            first >= 0,
                            bytes >= 1,
                    ;
                }
                if step == 0 {
                    assert(step * (8 * bytes - 1) == 0) by (nonlinear_arith)
                        requires
                            step == 0,
                    ;
                }
            }
            if step == 0 && first < w && y < h {
                // every sample is the same cell; the count does not matter
                return decode_same_cell(map, y, first, bytes);
            }
            return Err(FlagError::OutOfBounds);
        },
    };
    let last = match step.checked_mul(samples - 1) {
        Some(d) => match first.checked_add(d) {
            Some(x) => x,
            None => {
                return Err(FlagError::OutOfBounds);
            },
        },
        None => {
            return Err(FlagError::OutOfBounds);
        },
    };
    if last >= w || y >= h {
        return Err(FlagError::OutOfBounds);
    }
    // from the right: is any sample undecided?
    let mut k: usize = samples;
    let mut x: usize = last;
    while k > 0
        invariant
            k <= samples,
            samples == 8 * bytes,
            map.wf(),
            b == map@,
            y < h,
            h == b.height,
            w == b.width,
            last < w,
            last == sample_column(first as int, step as int, samples - 1),
            k > 0 ==> x == sample_column(first as int, step as int, k - 1),
            last_undecided(b, y as int, first as int, step as int, samples as int)
                == last_undecided(b, y as int, first as int, step as int, k as int),
        decreases k,
    {
        proof {
            lemma_next_sample(first as int, step as int, k - 2);
            assert(sample_column(first as int, step as int, k - 1) <= last) by (nonlinear_arith)
                requires
                    k <= samples,
                    step >= 0,
                    last == first + step * (samples - 1),
                    sample_column(first as int, step as int, k - 1) == first + step * (k - 1),
            ;
        }
        let tile = map.get(x, y);
        if tile != ACTIVE && tile != NOT_ACTIVE {
            return Err(FlagError::Undecided { x, tile });
        }
        k = k - 1;
        if k > 0 {
            x = x - step;
        }
    }
    let mut out: Vec<u8> = Vec::new();
    let mut m: usize = 0;
    let mut x: usize = first;
    proof {
        assert(step * 0 == 0) by (nonlinear_arith);
    }
    while m < bytes
        invariant
            m <= bytes,
            samples == 8 * bytes,
            map.wf(),
            b == map@,
            y < h,
            h == b.height,
            w == b.width,
            last < w,
            last == sample_column(first as int, step as int, samples - 1),
            last_undecided(b, y as int, first as int, step as int, samples as int) is None,
            m < bytes ==> x == sample_column(first as int, step as int, 8 * m),
            out@.len() == m,
            forall|j: int|
                0 <= j < m ==> out@[j] == message_byte(
                    b,
                    y as int,
                    first as int,
                    step as int,
                    j,
                ) as u8,
        decreases bytes - m,
    {
        let ghost f = first as int;
        let ghost s = step as int;
        let ghost base = 8 * m as int;
        proof {
            lemma_next_sample(f, s, base);
            lemma_next_sample(f, s, base + 1);
            lemma_next_sample(f, s, base + 2);
            lemma_next_sample(f, s, base + 3);
            lemma_next_sample(f, s, base + 4);
            lemma_next_sample(f, s, base + 5);
            lemma_next_sample(f, s, base + 6);
            lemma_next_sample(f, s, base + 7);
            assert(sample_column(f, s, base + 7) <= last) by (nonlinear_arith)
                requires
                    base + 7 <= samples - 1,
                    s >= 0,
                    last == f + s * (samples - 1),
                    sample_column(f, s, base + 7) == f + s * (base + 7),
            ;
        }
        let b0 = read_bit(map, x, y);
        let b1 = read_bit(map, x + step, y);
        let b2 = read_bit(map, x + 2 * step, y);
        let b3 = read_bit(map, x + 3 * step, y);
        let b4 = read_bit(map, x + 4 * step, y);
        let b5 = read_bit(map, x + 5 * step, y);
        let b6 = read_bit(map, x + 6 * step, y);
        let b7 = read_bit(map, x + 7 * step, y);
        out.push(128 * b0 + 64 * b1 + 32 * b2 + 16 * b3 + 8 * b4 + 4 * b5 + 2 * b6 + b7);
        m = m + 1;
        if m < bytes {
            proof {
                assert(sample_column(f, s, base + 8) <= last) by (nonlinear_arith)
                    requires
                        base + 8 <= samples - 1,
                        s >= 0,
                        last == f + s * (samples - 1),
                        sample_column(f, s, base + 8) == f + s * (base + 8),
                ;
            }
            x = x + 8 * step;
        }
    }
    proof {
        assert(out@ =~= Seq::new(
            bytes as nat,
            |m: int| message_byte(b, y as int, first as int, step as int, m) as u8,
        ));
    }
    Ok(out)
}

/// The message where the step is 0 and every sample is the cell `(x, y)`.
fn decode_same_cell<T: TileStore>(map: &T, y: usize, x: usize, bytes: usize) -> (r: Result<
    Vec<u8>,
    FlagError,
>)
    requires
        map.wf(),
        map@.contains(x as int, y as int),
        bytes > 0,
    ensures
        match r {
            Ok(text) => message(map@, y as int, x as int, 0, bytes as int) == Ok::<
                Seq<u8>,
                FlagError,
            >(text@),
            Err(e) => message(map@, y as int, x as int, 0, bytes as int) == Err::<
                Seq<u8>,
                FlagError,
            >(e),
        },
{
    let ghost b = map@;
    let tile = map.get(x, y);
    proof {
        assert forall|k: int| sample_column(x as int, 0, k) == x by {
            assert(0 * k == 0) by (nonlinear_arith);
        }
        lemma_same_cell(b, y as int, x as int, 8 * bytes);
    }
    if tile != ACTIVE && tile != NOT_ACTIVE {
        return Err(FlagError::Undecided { x, tile });
    }
    let byte: u8 = if tile == ACTIVE {
        255
    } else {
        0
    };
    let mut out: Vec<u8> = Vec::new();
    let mut m: usize = 0;
    while m < bytes
        invariant
            m <= bytes,
            out@.len() == m,
            forall|j: int| 0 <= j < m ==> out@[j] == byte,
        decreases bytes - m,
    {
        out.push(byte);
        m = m + 1;
    }
    proof {
        assert(out@ =~= Seq::new(
            bytes as nat,
            |m: int| message_byte(b, y as int, x as int, 0, m) as u8,
        ));
    }
    Ok(out)
}

/// With a step of 0 the last undecided sample is the last sample, or none.
pub proof fn lemma_same_cell(b: Board, y: int, x: int, n: int)
    requires
        n > 0,
        forall|k: int| sample_column(x, 0, k) == x,
    ensures
        last_undecided(b, y, x, 0, n) == (if decided(b.tile(x, y)) {
            None
        } else {
            Some(n - 1)
        }),
    decreases n,
{
    assert(sample_column(x, 0, n - 1) == x);
    if n > 1 {
        lemma_same_cell(b, y, x, n - 1);
    } else {
        assert(last_undecided(b, y, x, 0, 0) is None);
    }
}

/// Reads the message of the full puzzle: 46 bytes in row 5, one sample every
/// 24 columns from column 8427 on.
pub fn decode_flag<T: TileStore>(map: &T) -> (r: Result<Vec<u8>, FlagError>)
    requires
        map.wf(),
    ensures
        match r {
            Ok(text) => message(
                map@,
                FLAG_ROW as int,
                FLAG_FIRST_COLUMN as int,
                FLAG_STEP as int,
                FLAG_BYTES as int,
            ) == Ok::<Seq<u8>, FlagError>(text@),
            Err(e) => message(
                map@,
                FLAG_ROW as int,
                FLAG_FIRST_COLUMN as int,
                FLAG_STEP as int,
                FLAG_BYTES as int,
            ) == Err::<Seq<u8>, FlagError>(e),
        },
{
    decode_row(map, FLAG_ROW, FLAG_FIRST_COLUMN, FLAG_STEP, FLAG_BYTES)
}

/// The message in the form in which it is shown: `CTF{`, the bytes as
/// characters, `}`.
pub fn flag_text(bytes: &[u8]) -> (text: Vec<char>)
    ensures
        text@ == seq!['C', 'T', 'F', '{'] + Seq::new(bytes@.len(), |i: int| bytes@[i] as char)
            + seq!['}'],
{
    let mut text: Vec<char> = Vec::new();
    text.push('C');
    text.push('T');
    text.push('F');
    text.push('{');
    let mut i: usize = 0;
    while i < bytes.len()
        invariant
            i <= bytes.len(),
            text@ == seq!['C', 'T', 'F', '{'] + Seq::new(i as nat, |j: int| bytes@[j] as char),
        decreases bytes.len() - i,
    {
        text.push(bytes[i] as char);
        assert(text@ =~= seq!['C', 'T', 'F', '{'] + Seq::new(
            (i + 1) as nat,
            |j: int| bytes@[j] as char,
        ));
        i = i + 1;
    }
    text.push('}');
    assert(text@ =~= seq!['C', 'T', 'F', '{'] + Seq::new(bytes@.len(), |i: int| bytes@[i] as char)
        + seq!['}']);
    text
}

} // verus!
