//! The packed source format: a header of two little-endian 32-bit numbers,
//! width and height, then the tiles, two to a byte.

use vstd::prelude::*;

verus! {

/// Why packed data cannot be unpacked.
#[derive(Debug, Clone, Copy, PartialEq, Eq, Structural)]
pub enum DatError {
    /// The data is shorter than the header.
    NoHeader,
    /// The header names other dimensions than the expected ones.
    WrongDimensions { width: u32, height: u32 },
    /// The number of cells is odd, so the last byte would be half used.
    OddCellCount,
    /// The body does not hold half as many bytes as there are cells.
    WrongLength,
}

/// Length of the header in bytes.
pub const HEADER_LEN: usize = 8;

/// The little-endian 32-bit number at position `at`.
pub open spec fn le_u32(data: Seq<u8>, at: int) -> int {
    data[at] + 256 * data[at + 1] + 65536 * data[at + 2] + 16777216 * data[at + 3]
}

/// The tile at linear position `i` of the packed body: the upper half of
/// byte `i / 2` for an even position, the lower half for an odd one.
pub open spec fn packed_tile(body: Seq<u8>, i: int) -> u8 {
    if i % 2 == 0 {
        body[i / 2] / 16
    } else {
        body[i / 2] % 16
    }
}

/// What packed data of the expected dimensions unpacks to.
pub open spec fn unpacked(data: Seq<u8>, width: nat, height: nat) -> Result<Seq<u8>, DatError> {
    if data.len() < HEADER_LEN {
        Err(DatError::NoHeader)
    } else if le_u32(data, 0) != width || le_u32(data, 4) != height {
        Err(
            DatError::WrongDimensions {
                width: le_u32(data, 0) as u32,
                height: le_u32(data, 4) as u32,
            },
        )
    } else if (width * height) % 2 != 0 {
        Err(DatError::OddCellCount)
    } else if data.len() - HEADER_LEN != (width * height) / 2 {
        Err(DatError::WrongLength)
    } else {
        Ok(Seq::new(width * height, |i: int| packed_tile(data.skip(HEADER_LEN as int), i)))
    }
}

/// Reads the little-endian 32-bit number at position `at`.
pub fn read_le_u32(data: &[u8], at: usize) -> (r: u32)
    requires
        at + 4 <= data@.len(),
    ensures
        r == le_u32(data@, at as int),
{
    let b0 = data[at] as u32;
    let b1 = data[at + 1] as u32;
    let b2 = data[at + 2] as u32;
    let b3 = data[at + 3] as u32;
    b0 + b1 * 256 + b2 * 65536 + b3 * 16777216
}

/// Unpacks packed data into one tile per byte, row by row. The header must
/// name the expected dimensions.
pub fn unpack_dat(data: &[u8], width: usize, height: usize) -> (r: Result<Vec<u8>, DatError>)
    ensures
        match r {
            Ok(tiles) => unpacked(data@, width as nat, height as nat) == Ok::<Seq<u8>, DatError>(
                tiles@,
            ),
            Err(e) => unpacked(data@, width as nat, height as nat) == Err::<Seq<u8>, DatError>(e),
        },
{
    if data.len() < HEADER_LEN {
        return Err(DatError::NoHeader);
    }
    let w = read_le_u32(data, 0);
    let h = read_le_u32(data, 4);
    if w as usize != width || h as usize != height {
        return Err(DatError::WrongDimensions { width: w, height: h });
    }
    let total = data.len();
    let body_len = total - HEADER_LEN;
    let ghost body = data@.skip(HEADER_LEN as int);
    let ghost cells = (width as nat) * (height as nat);
    assert(w * h <= 0xffff_ffff * 0xffff_ffff) by (nonlinear_arith)
        requires
            w <= 0xffff_ffff,
            h <= 0xffff_ffff,
    ;
    let count: u64 = (w as u64) * (h as u64);
    if count % 2 != 0 {
        return Err(DatError::OddCellCount);
    }
    if body_len as u64 != count / 2 {
        return Err(DatError::WrongLength);
    }
    let mut out: Vec<u8> = Vec::new();
    let mut i: usize = 0;
    while i < body_len
        invariant
            i <= body_len,
            total == data@.len(),
            body_len == total - HEADER_LEN,
            body == data@.skip(HEADER_LEN as int),
            out@.len() == 2 * i,
            forall|j: int| 0 <= j < 2 * i ==> out@[j] == packed_tile(body, j),
        decreases body_len - i,
    {
        let byte = data[HEADER_LEN + i];
        assert(body[i as int] == byte);
        out.push(byte / 16);
        out.push(byte % 16);
        i = i + 1;
    }
    proof {
        assert(out@ =~= Seq::new(cells, |i: int| packed_tile(body, i)));
    }
    Ok(out)
}

} // verus!
