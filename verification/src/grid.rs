//! The grid store: a rectangle of tiles in one contiguous row-major buffer.

use vstd::prelude::*;
use crate::tile::{is_legal_tile, legal_tile, BACKGROUND};

verus! {

/// The mathematical content of a grid: its dimensions and its tiles in
/// row-major order.
pub struct Board {
    pub width: nat,
    pub height: nat,
    pub cells: Seq<u8>,
}

impl Board {
    /// The buffer matches the dimensions, the dimensions fit 32 bits, and
    /// every tile is of the legal alphabet.
    pub open spec fn wf(self) -> bool {
        &&& self.width <= u32::MAX
        &&& self.height <= u32::MAX
        &&& self.cells.len() == self.width * self.height
        &&& forall|i: int| 0 <= i < self.cells.len() ==> is_legal_tile(#[trigger] self.cells[i])
    }

    /// Whether `(x, y)` lies inside the grid.
    pub open spec fn contains(self, x: int, y: int) -> bool {
        0 <= x < self.width && 0 <= y < self.height
    }

    /// Position of `(x, y)` in the row-major buffer.
    pub open spec fn index(self, x: int, y: int) -> int {
        y * self.width + x
    }

    /// The tile at `(x, y)`.
    pub open spec fn tile(self, x: int, y: int) -> u8 {
        self.cells[self.index(x, y)]
    }

    /// The board with the tile at `(x, y)` replaced by `value`.
    pub open spec fn with_tile(self, x: int, y: int, value: u8) -> Board {
        Board { cells: self.cells.update(self.index(x, y), value), ..self }
    }

    /// An in-bounds coordinate has an in-range buffer position.
    pub proof fn lemma_index_in_range(self, x: int, y: int)
        requires
            self.contains(x, y),
            self.cells.len() == self.width * self.height,
        ensures
            0 <= self.index(x, y) < self.cells.len(),
    {
        let w = self.width as int;
        let h = self.height as int;
        assert(y * w + x < h * w) by (nonlinear_arith)
            requires
                0 <= x < w,
                0 <= y < h,
        ;
        assert(0 <= y * w) by (nonlinear_arith)
            requires
                0 <= y,
                0 <= w,
        ;
        assert(h * w == w * h) by (nonlinear_arith);
    }

    /// Two in-bounds coordinates with the same buffer position are the same.
    pub proof fn lemma_index_injective(self, x1: int, y1: int, x2: int, y2: int)
        requires
            self.contains(x1, y1),
            self.contains(x2, y2),
            self.index(x1, y1) == self.index(x2, y2),
        ensures
            x1 == x2,
            y1 == y2,
    {
        let w = self.width as int;
        assert(y1 == y2) by (nonlinear_arith)
            requires
                0 <= x1 < w,
                0 <= x2 < w,
                y1 * w + x1 == y2 * w + x2,
        ;
    }

    /// Writing a legal tile inside the grid keeps the board well formed, and
    /// changes the tile at that coordinate only.
    pub proof fn lemma_with_tile(self, x: int, y: int, value: u8)
        requires
            self.wf(),
            self.contains(x, y),
            is_legal_tile(value),
        ensures
            self.with_tile(x, y, value).wf(),
            self.with_tile(x, y, value).tile(x, y) == value,
            forall|x2: int, y2: int|
                self.contains(x2, y2) && (x2 != x || y2 != y) ==> #[trigger] self.with_tile(
                    x,
                    y,
                    value,
                ).tile(x2, y2) == self.tile(x2, y2),
    {
        self.lemma_index_in_range(x, y);
        let after = self.with_tile(x, y, value);
        assert forall|x2: int, y2: int|
            self.contains(x2, y2) && (x2 != x || y2 != y) implies #[trigger] after.tile(x2, y2)
            == self.tile(x2, y2) by {
            self.lemma_index_in_range(x2, y2);
            if self.index(x2, y2) == self.index(x, y) {
                self.lemma_index_injective(x, y, x2, y2);
            }
        }
    }
}

/// Why a byte buffer is not a grid.
#[derive(Debug, Clone, Copy, PartialEq, Eq, Structural)]
pub enum GridError {
    /// A dimension does not fit 32 bits.
    TooLarge,
    /// The buffer does not hold exactly width times height bytes.
    WrongLength,
    /// The byte at `index` is no legal tile.
    InvalidTile { index: usize, value: u8 },
}

/// Whether `i` is the first position in `data` that holds no legal tile.
pub open spec fn is_first_illegal(data: Seq<u8>, i: int) -> bool {
    &&& 0 <= i < data.len()
    &&& !is_legal_tile(data[i])
    &&& forall|j: int| 0 <= j < i ==> is_legal_tile(#[trigger] data[j])
}

/// The first position in `data` that holds no legal tile, if there is one.
pub open spec fn first_illegal(data: Seq<u8>) -> Option<int> {
    if exists|i: int| is_first_illegal(data, i) {
        Some(choose|i: int| is_first_illegal(data, i))
    } else {
        None
    }
}

/// The first illegal position is unique.
pub proof fn lemma_first_illegal(data: Seq<u8>, i: int)
    requires
        is_first_illegal(data, i),
    ensures
        first_illegal(data) == Some(i),
{
    let k = choose|k: int| is_first_illegal(data, k);
    if k < i {
        assert(is_legal_tile(data[k]));
    }
    if i < k {
        assert(is_legal_tile(data[i]));
    }
}

/// Data of legal tiles only has no first illegal position.
pub proof fn lemma_no_illegal(data: Seq<u8>)
    requires
        forall|j: int| 0 <= j < data.len() ==> is_legal_tile(#[trigger] data[j]),
    ensures
        first_illegal(data) == None::<int>,
{
}

/// What a raw dump of the given dimensions decodes to.
pub open spec fn parse_board(width: nat, height: nat, data: Seq<u8>) -> Result<Board, GridError> {
    if width > u32::MAX || height > u32::MAX {
        Err(GridError::TooLarge)
    } else if data.len() != width * height {
        Err(GridError::WrongLength)
    } else {
        match first_illegal(data) {
            Some(i) => Err(GridError::InvalidTile { index: i as usize, value: data[i] }),
            None => Ok(Board { width, height, cells: data }),
        }
    }
}

/// What a store holds that keeps its writes apart from the grid that it was
/// made over: the board underneath, and the table of what was written, by
/// position in the raw dump.
pub struct Layer {
    pub base: Board,
    pub patches: Map<int, u8>,
}

/// The layer after `value` was written at `position`: the table has the
/// value there, and the board underneath is as it was. A store without a
/// layer has none afterwards.
pub open spec fn wrote(layer: Option<Layer>, position: int, value: u8) -> Option<Layer> {
    match layer {
        Some(l) => Some(Layer { base: l.base, patches: l.patches.insert(position, value) }),
        None => None,
    }
}

/// Whether two layers lie over the same board, or both are none.
pub open spec fn same_base(a: Option<Layer>, b: Option<Layer>) -> bool {
    match (a, b) {
        (Some(x), Some(y)) => x.base == y.base,
        (None, None) => true,
        _ => false,
    }
}

/// Read and write access to the tiles of a rectangular board.
pub trait TileStore: View<V = Board> + Sized {
    /// The invariant of the store.
    spec fn wf(&self) -> bool;

    /// The layer of a store that keeps its writes apart; `None` for a store
    /// that writes in place.
    spec fn layer(&self) -> Option<Layer>;

    /// A well-formed store shows a well-formed board.
    proof fn lemma_board_wf(&self)
        requires
            self.wf(),
        ensures
            self@.wf(),
    ;

    /// Number of columns.
    fn width(&self) -> (w: usize)
        requires
            self.wf(),
        ensures
            w == self@.width,
    ;

    /// Number of rows.
    fn height(&self) -> (h: usize)
        requires
            self.wf(),
        ensures
            h == self@.height,
    ;

    /// The tile at `(x, y)`.
    fn get(&self, x: usize, y: usize) -> (t: u8)
        requires
            self.wf(),
            self@.contains(x as int, y as int),
        ensures
            t == self@.tile(x as int, y as int),
    ;

    /// Replaces the tile at `(x, y)`.
    fn set(&mut self, x: usize, y: usize, value: u8)
        requires
            old(self).wf(),
            old(self)@.contains(x as int, y as int),
            is_legal_tile(value),
        ensures
            final(self).wf(),
            final(self)@ == old(self)@.with_tile(x as int, y as int, value),
            final(self).layer() == wrote(
                old(self).layer(),
                old(self)@.index(x as int, y as int),
                value,
            ),
    ;
}

/// A grid of fixed dimensions.
pub struct Grid {
    width: usize,
    height: usize,
    cells: Vec<u8>,
}

impl View for Grid {
    type V = Board;

    closed spec fn view(&self) -> Board {
        Board { width: self.width as nat, height: self.height as nat, cells: self.cells@ }
    }
}

impl Grid {
    /// A grid of background tiles. `None` where a dimension does not fit 32
    /// bits or the number of cells does not fit the address space.
    pub fn new(width: usize, height: usize) -> (r: Option<Grid>)
        ensures
            match r {
                Some(g) => g.wf() && g@.width == width && g@.height == height && forall|i: int|
                    0 <= i < g@.cells.len() ==> g@.cells[i] == BACKGROUND,
                None => width > u32::MAX || height > u32::MAX || width * height > usize::MAX,
            },
    {
        if width > 0xffff_ffff || height > 0xffff_ffff {
            return None;
        }
        match width.checked_mul(height) {
            None => None,
            Some(n) => {
                let mut cells: Vec<u8> = Vec::new();
                let mut i: usize = 0;
                while i < n
                    invariant
                        i <= n,
                        cells@.len() == i,
                        forall|j: int| 0 <= j < i ==> cells@[j] == BACKGROUND,
                    decreases n - i,
                {
                    cells.push(BACKGROUND);
                    i = i + 1;
                }
                Some(Grid { width, height, cells })
            },
        }
    }

    /// Decodes a raw dump: `width * height` bytes, row by row, one tile each.
    pub fn from_bytes(width: usize, height: usize, data: Vec<u8>) -> (r: Result<Grid, GridError>)
        ensures
            match r {
                Ok(g) => g.wf() && parse_board(width as nat, height as nat, data@) == Ok::<
                    Board,
                    GridError,
                >(g@),
                Err(e) => parse_board(width as nat, height as nat, data@) == Err::<
                    Board,
                    GridError,
                >(e),
            },
    {
        if width > 0xffff_ffff || height > 0xffff_ffff {
            return Err(GridError::TooLarge);
        }
        let len = data.len();
        match width.checked_mul(height) {
            None => {
                return Err(GridError::WrongLength);
            },
            Some(n) => {
                if len != n {
                    return Err(GridError::WrongLength);
                }
            },
        }
        let mut i: usize = 0;
        while i < data.len()
            invariant
                i <= data.len(),
                width <= u32::MAX,
                height <= u32::MAX,
                data@.len() == width * height,
                forall|j: int| 0 <= j < i ==> is_legal_tile(#[trigger] data@[j]),
            decreases data.len() - i,
        {
            if !legal_tile(data[i]) {
                proof {
                    lemma_first_illegal(data@, i as int);
                }
                return Err(GridError::InvalidTile { index: i, value: data[i] });
            }
            i = i + 1;
        }
        proof {
            lemma_no_illegal(data@);
        }
        Ok(Grid { width, height, cells: data })
    }

    /// The raw dump of the grid.
    pub fn to_bytes(&self) -> (data: Vec<u8>)
        ensures
            data@ == self@.cells,
    {
        self.cells.clone()
    }

    /// Whether `(x, y)` lies inside the grid.
    pub fn in_bounds(&self, x: usize, y: usize) -> (r: bool)
        ensures
            r == self@.contains(x as int, y as int),
    {
        x < self.width && y < self.height
    }

    /// The tile at `(x, y)`, or `None` outside the grid.
    pub fn tile_at(&self, x: usize, y: usize) -> (r: Option<u8>)
        requires
            self.wf(),
        ensures
            r == (if self@.contains(x as int, y as int) {
                Some(self@.tile(x as int, y as int))
            } else {
                None
            }),
    {
        if x < self.width && y < self.height {
            Some(self.get(x, y))
        } else {
            None
        }
    }

    /// Number of cells.
    pub fn cell_count(&self) -> (n: usize)
        requires
            self.wf(),
        ensures
            n == self@.cells.len(),
    {
        self.cells.len()
    }

    /// Position of `(x, y)` in the raw dump.
    pub fn position(&self, x: usize, y: usize) -> (i: usize)
        requires
            self.wf(),
            self@.contains(x as int, y as int),
        ensures
            i == self@.index(x as int, y as int),
            i < self@.cells.len(),
    {
        proof {
            assert(self.cells.len() == self.cells@.len());
            self@.lemma_index_in_range(x as int, y as int);
            assert(0 <= y * self.width) by (nonlinear_arith);
        }
        y * self.width + x
    }

    /// The tile at position `i` of the raw dump.
    pub fn tile_by_position(&self, i: usize) -> (t: u8)
        requires
            self.wf(),
            i < self@.cells.len(),
        ensures
            t == self@.cells[i as int],
    {
        self.cells[i]
    }

    /// Replaces the tile at position `i` of the raw dump.
    pub fn set_by_position(&mut self, i: usize, value: u8)
        requires
            old(self).wf(),
            i < old(self)@.cells.len(),
            is_legal_tile(value),
        ensures
            final(self).wf(),
            final(self)@ == (Board { cells: old(self)@.cells.update(i as int, value), ..old(self)@ }),
    {
        self.cells.set(i, value);
    }

    /// Replaces the tile at `(x, y)` where the coordinate is inside the grid
    /// and `value` is a legal tile; says whether it did.
    pub fn put(&mut self, x: usize, y: usize, value: u8) -> (done: bool)
        requires
            old(self).wf(),
        ensures
            final(self).wf(),
            done == (old(self)@.contains(x as int, y as int) && is_legal_tile(value)),
            final(self)@ == (if done {
                old(self)@.with_tile(x as int, y as int, value)
            } else {
                old(self)@
            }),
    {
        if x < self.width && y < self.height && legal_tile(value) {
            self.set(x, y, value);
            true
        } else {
            false
        }
    }
}

impl Clone for Grid {
    fn clone(&self) -> (r: Grid)
        ensures
            r@ == self@,
            self.wf() ==> r.wf(),
    {
        Grid { width: self.width, height: self.height, cells: self.cells.clone() }
    }
}

impl TileStore for Grid {
    closed spec fn wf(&self) -> bool {
        self@.wf()
    }

    open spec fn layer(&self) -> Option<Layer> {
        None
    }

    proof fn lemma_board_wf(&self) {
    }

    fn width(&self) -> (w: usize) {
        self.width
    }

    fn height(&self) -> (h: usize) {
        self.height
    }

    fn get(&self, x: usize, y: usize) -> (t: u8) {
        proof {
            assert(self.cells.len() == self.cells@.len());
            self@.lemma_index_in_range(x as int, y as int);
            assert(0 <= y * self.width) by (nonlinear_arith);
        }
        self.cells[y * self.width + x]
    }

    fn set(&mut self, x: usize, y: usize, value: u8) {
        proof {
            assert(self.cells.len() == self.cells@.len());
            self@.lemma_index_in_range(x as int, y as int);
            self@.lemma_with_tile(x as int, y as int, value);
            assert(0 <= y * self.width) by (nonlinear_arith);
        }
        let i = y * self.width + x;
        self.cells.set(i, value);
    }
}

/// A grid written out and read back with its own dimensions is the same grid.
pub proof fn lemma_load_save_round_trip(b: Board)
    requires
        b.wf(),
    ensures
        parse_board(b.width, b.height, b.cells) == Ok::<Board, GridError>(b),
{
    lemma_no_illegal(b.cells);
}

} // verus!
