use vstd::prelude::*;
use crate::bits::{popcnt64, popcount64, lemma_popcnt_open, bit_set, hamming_wgt, lemma_pop_range, lemma_pop_insert};
use crate::side::{Color, two_sided};

verus! {

pub const U1: u64 = 1;

/// The two grid extents the engine supports.
#[derive(Clone, Copy, PartialEq, Eq, Structural, Debug)]
pub enum BoardSize {
    Six,
    Eight,
}

impl BoardSize {
    /// Grid extent (6 or 8), kept as `u64` so that every spec function built
    /// on it can be inlined by bit-vector proofs.
    pub open spec fn nv(self) -> u64 {
        match self {
            BoardSize::Six => 6,
            BoardSize::Eight => 8,
        }
    }

    /// Number of cells on the grid.
    pub open spec fn cells_spec(self) -> int {
        self.nv() * self.nv()
    }

    /// Grid extent as a run-time value.
    pub fn extent(self) -> (r: usize)
        ensures
            r == self.nv(),
    {
        match self {
            BoardSize::Six => 6,
            BoardSize::Eight => 8,
        }
    }

    /// Number of cells as a run-time value.
    pub fn cells(self) -> (r: usize)
        ensures
            r == self.cells_spec(),
    {
        match self {
            BoardSize::Six => 36,
            BoardSize::Eight => 64,
        }
    }
}

/// Mask of the bits that correspond to cells of an `n` by `n` grid.
pub open spec fn full_mask(n: u64) -> u64 {
    if n == 6 {
        0xFFFFFFFFF
    } else {
        0xFFFFFFFFFFFFFFFF
    }
}

/// Per-direction wraparound mask: the cells a disc may land on after moving
/// one step in direction `dir` (0 e, 1 se, 2 s, 3 sw, 4 w, 5 nw, 6 n, 7 ne).
pub open spec fn dir_mask(n: u64, dir: u64) -> u64 {
    if n == 6 {
        if dir == 0 {
            0x7DF7DF7DF
        } else if dir == 1 {
            0x01F7DF7DF
        } else if dir == 2 {
            0xFFFFFFFFF
        } else if dir == 3 {
            0x03EFBEFBE
        } else if dir == 4 {
            0xFBEFBEFBE
        } else if dir == 5 {
            0xFBEFBEF80
        } else if dir == 6 {
            0xFFFFFFFFF
        } else {
            0x7DF7DF7C0
        }
    } else {
        if dir == 0 {
            0x7F7F7F7F7F7F7F7F
        } else if dir == 1 {
            0x007F7F7F7F7F7F7F
        } else if dir == 2 {
            0xFFFFFFFFFFFFFFFF
        } else if dir == 3 {
            0x00FEFEFEFEFEFEFE
        } else if dir == 4 {
            0xFEFEFEFEFEFEFEFE
        } else if dir == 5 {
            0xFEFEFEFEFEFEFE00
        } else if dir == 6 {
            0xFFFFFFFFFFFFFFFF
        } else {
            0x7F7F7F7F7F7F7F00
        }
    }
}

/// Bit distance moved by one step in direction `dir`: 1 along a row, `n` along
/// a column, `n + 1` and `n - 1` along the diagonals.
pub open spec fn shift_amt(n: u64, dir: u64) -> u64 {
    if dir == 0 || dir == 4 {
        1
    } else if dir == 1 || dir == 5 {
        if n == 6 {
            7
        } else {
            9
        }
    } else if dir == 2 || dir == 6 {
        n
    } else {
        if n == 6 {
            5
        } else {
            7
        }
    }
}

/// One-step translation of a disc set in direction `dir`, with wraparound
/// masked off. Directions 0..4 shift down, 4..8 shift up.
pub open spec fn spec_shift(m: u64, dir: u64, n: u64) -> u64 {
    if dir < 4 {
        (m >> shift_amt(n, dir)) & dir_mask(n, dir)
    } else {
        (m << shift_amt(n, dir)) & dir_mask(n, dir)
    }
}

/// Extend the opponent run `x` by up to `k` more steps in direction `dir`,
/// staying on opponent discs.
pub open spec fn ext_run(x: u64, opp: u64, dir: u64, n: u64, k: nat) -> u64
    decreases k,
{
    if k == 0 {
        x
    } else {
        let y = ext_run(x, opp, dir, n, (k - 1) as nat);
        y | (spec_shift(y, dir, n) & opp)
    }
}

/// Legal destination cells contributed by direction `dir`: the empty cells
/// one step beyond a maximal run of opponent discs that starts next to a disc
/// of the mover.
pub open spec fn legal_dir(mine: u64, opp: u64, dir: u64, n: u64) -> u64 {
    let x = ext_run(spec_shift(mine, dir, n) & opp, opp, dir, n, (n - 3) as nat);
    spec_shift(x, dir, n) & !(mine | opp)
}

/// Legal destinations over the first `d` directions.
pub open spec fn legal_upto(mine: u64, opp: u64, n: u64, d: nat) -> u64
    decreases d,
{
    if d == 0 {
        0u64
    } else {
        legal_upto(mine, opp, n, (d - 1) as nat) | legal_dir(mine, opp, (d - 1) as u64, n)
    }
}

/// All cells where the side holding `mine` may legally place a disc.
pub open spec fn spec_legal(mine: u64, opp: u64, n: u64) -> u64 {
    legal_upto(mine, opp, n, 8)
}

/// Discs captured in direction `dir` by a disc newly placed on `newd`:
/// the adjacent opponent run, provided it is bounded by a mover disc.
pub open spec fn cap_dir(mine1: u64, opp: u64, dir: u64, n: u64, newd: u64) -> u64 {
    let x = ext_run(spec_shift(newd, dir, n) & opp, opp, dir, n, (n - 3) as nat);
    if spec_shift(x, dir, n) & mine1 != 0 {
        x
    } else {
        0u64
    }
}

/// Captured discs over the first `d` directions.
pub open spec fn cap_upto(mine1: u64, opp: u64, n: u64, newd: u64, d: nat) -> u64
    decreases d,
{
    if d == 0 {
        0u64
    } else {
        cap_upto(mine1, opp, n, newd, (d - 1) as nat) | cap_dir(mine1, opp, (d - 1) as u64, n, newd)
    }
}

/// All discs captured by placing a disc on cell `loc`.
pub open spec fn spec_captured(mine1: u64, opp: u64, n: u64, loc: u64) -> u64 {
    cap_upto(mine1, opp, n, 1u64 << loc, 8)
}

/// Mover and opponent masks after placing a disc on `loc` and flipping all
/// captured runs.
pub open spec fn spec_flip_masks(mine: u64, opp: u64, n: u64, loc: u64) -> (u64, u64) {
    let mine1 = mine | (1u64 << loc);
    let c = spec_captured(mine1, opp, n, loc);
    (mine1 ^ c, opp ^ c)
}

/// Occupant encoded by one board-text byte.
pub open spec fn byte_color(b: u8) -> Color {
    if b == 88u8 {
        Color::Black
    } else if b == 79u8 {
        Color::White
    } else {
        Color::Empty
    }
}

/// `b` is one of the three board-text bytes `X`, `O`, `+`.
pub open spec fn valid_board_byte(b: u8) -> bool {
    b == 88u8 || b == 79u8 || b == 43u8
}

/// Masks accumulated by decoding the first `i` bytes of a board text.
pub open spec fn decode_masks(s: Seq<u8>, i: nat) -> (u64, u64)
    decreases i,
{
    if i == 0 {
        (0u64, 0u64)
    } else {
        let p = decode_masks(s, (i - 1) as nat);
        let j = (i - 1) as u64;
        if s[i - 1] == 88u8 {
            (p.0 | (1u64 << j), p.1)
        } else if s[i - 1] == 79u8 {
            (p.0, p.1 | (1u64 << j))
        } else {
            p
        }
    }
}

/// A bit-packed game board: one occupancy mask per side.
#[derive(Debug)]
pub struct BBoard {
    pub black: u64,
    pub white: u64,
    pub size: BoardSize,
}

impl BBoard {
    /// Grid extent of this board.
    pub open spec fn n(self) -> u64 {
        self.size.nv()
    }

    /// Every cell holds at most one disc, and no bit outside the grid is set.
    pub open spec fn wf(self) -> bool {
        &&& self.black & self.white == 0
        &&& (self.black | self.white) & !full_mask(self.n()) == 0
    }

    /// All occupied cells.
    pub open spec fn occupied(self) -> u64 {
        self.black | self.white
    }

    /// Occupancy mask of one side.
    pub open spec fn mask_of(self, cl: Color) -> u64 {
        if cl is Black {
            self.black
        } else if cl is White {
            self.white
        } else {
            0u64
        }
    }

    /// Cells where `cl` may legally place a disc.
    pub open spec fn legal_mask(self, cl: Color) -> u64 {
        if cl is Black {
            spec_legal(self.black, self.white, self.n())
        } else if cl is White {
            spec_legal(self.white, self.black, self.n())
        } else {
            0u64
        }
    }

    /// Occupant of cell `loc`.
    pub open spec fn spec_at(self, loc: u64) -> Color {
        if bit_set(self.black, loc) {
            Color::Black
        } else if bit_set(self.white, loc) {
            Color::White
        } else {
            Color::Empty
        }
    }

    /// Neither side has a legal move.
    pub open spec fn spec_over(self) -> bool {
        &&& self.legal_mask(Color::Black) == 0
        &&& self.legal_mask(Color::White) == 0
    }

    /// The board after `cl` places a disc on `loc` and captures.
    pub open spec fn spec_put(self, loc: u64, cl: Color) -> BBoard {
        if cl is Black {
            let p = spec_flip_masks(self.black, self.white, self.n(), loc);
            BBoard { black: p.0, white: p.1, size: self.size }
        } else if cl is White {
            let p = spec_flip_masks(self.white, self.black, self.n(), loc);
            BBoard { black: p.1, white: p.0, size: self.size }
        } else {
            self
        }
    }
}


/// Basic identities for `0` under bitwise operations.
pub proof fn lemma_bv_zero(a: u64)
    by (bit_vector)
    ensures
        0u64 & a == 0,
        a & 0u64 == 0,
        a | 0u64 == a,
        0u64 | a == a,
{
}

/// Whatever is intersected with the complement of `b` is disjoint from `b`.
pub proof fn lemma_bv_and_not(a: u64, b: u64)
    by (bit_vector)
    ensures
        (a & !b) & b == 0,
{
}

/// An intersection is contained in either operand.
pub proof fn lemma_bv_and_subset(a: u64, b: u64)
    by (bit_vector)
    ensures
        (a & b) & !b == 0,
        (a & b) & !a == 0,
{
}

/// Containment in `f` passes through a further intersection.
pub proof fn lemma_bv_and_confined(a: u64, b: u64, f: u64)
    by (bit_vector)
    requires
        a & !f == 0,
    ensures
        (a & b) & !f == 0,
        (b & a) & !f == 0,
{
}

/// A union of two sets contained in `f` is contained in `f`.
pub proof fn lemma_bv_or_confined(a: u64, b: u64, f: u64)
    by (bit_vector)
    requires
        a & !f == 0,
        b & !f == 0,
    ensures
        (a | b) & !f == 0,
{
}

/// A union of two sets disjoint from `c` is disjoint from `c`.
pub proof fn lemma_bv_or_disjoint(a: u64, b: u64, c: u64)
    by (bit_vector)
    requires
        a & c == 0,
        b & c == 0,
    ensures
        (a | b) & c == 0,
{
}

/// Extending a subset of `o` by one masked step stays inside `o`.
pub proof fn lemma_bv_ext_step(y: u64, s: u64, o: u64)
    by (bit_vector)
    requires
        y & !o == 0,
    ensures
        (y | (s & o)) & !o == 0,
{
}

/// Adding a bit twice is the same as adding it once.
pub proof fn lemma_bv_or_idem(a: u64, x: u64)
    by (bit_vector)
    ensures
        (a | x) | x == a | x,
{
}

/// A bit of a set disjoint from `b` is clear in `b`.
pub proof fn lemma_bv_disjoint_bit(a: u64, b: u64, i: u64)
    by (bit_vector)
    requires
        a & b == 0,
        bit_set(a, i),
    ensures
        !bit_set(b, i),
{
}

/// Setting bit `i` sets it and leaves every other bit unchanged.
pub proof fn lemma_bv_or_bit(m: u64, i: u64, j: u64)
    by (bit_vector)
    requires
        i < 64,
        j < 64,
    ensures
        bit_set(m | (1u64 << i), i),
        j != i ==> bit_set(m | (1u64 << i), j) == bit_set(m, j),
{
}

/// A set bit of a mask confined to the grid names a cell of the grid.
pub proof fn lemma_bv_bit_in_grid(m: u64, i: u64, n: u64)
    by (bit_vector)
    requires
        n == 6 || n == 8,
        m & !full_mask(n) == 0,
        i < 64,
        bit_set(m, i),
    ensures
        i < n * n,
{
}

/// Every per-direction wraparound mask stays inside the grid.
pub proof fn lemma_dir_mask_confined(n: u64, dir: u64)
    by (bit_vector)
    requires
        n == 6 || n == 8,
    ensures
        dir_mask(n, dir) & !full_mask(n) == 0,
{
}

/// A mask confined to the grid has at most one bit per cell.
proof fn lemma_pop_area_bv(m: u64, n: u64)
    by (bit_vector)
    requires
        n == 6 || n == 8,
        m & !full_mask(n) == 0,
    ensures
        popcount64(m) <= n * n,
{
}

/// A mask confined to the grid has at most one bit per cell.
pub proof fn lemma_pop_area(m: u64, n: u64)
    requires
        n == 6 || n == 8,
        m & !full_mask(n) == 0,
    ensures
        popcnt64(m) <= n * n,
{
    lemma_pop_area_bv(m, n);
    lemma_popcnt_open(m);
}

/// The legal-move set avoids every occupied cell and stays inside the grid.
pub proof fn lemma_legal_props(mine: u64, opp: u64, n: u64, d: nat)
    requires
        n == 6 || n == 8,
    ensures
        legal_upto(mine, opp, n, d) & (mine | opp) == 0,
        legal_upto(mine, opp, n, d) & !full_mask(n) == 0,
    decreases d,
{
    if d == 0 {
        lemma_bv_zero(mine | opp);
        lemma_bv_zero(!full_mask(n));
    } else {
        lemma_legal_props(mine, opp, n, (d - 1) as nat);
        let dir = (d - 1) as u64;
        let x = ext_run(spec_shift(mine, dir, n) & opp, opp, dir, n, (n - 3) as nat);
        let sh = spec_shift(x, dir, n);
        let ld = legal_dir(mine, opp, dir, n);
        lemma_bv_and_not(sh, mine | opp);
        assert(ld & (mine | opp) == 0);
        lemma_bv_or_disjoint(legal_upto(mine, opp, n, (d - 1) as nat), ld, mine | opp);
        // confinement: the shifted run is inside the direction mask, hence the grid
        lemma_dir_mask_confined(n, dir);
        lemma_bv_and_subset(if dir < 4 { x >> shift_amt(n, dir) } else { x << shift_amt(n, dir) }, dir_mask(n, dir));
        lemma_bv_and_confined(dir_mask(n, dir), if dir < 4 { x >> shift_amt(n, dir) } else { x << shift_amt(n, dir) }, full_mask(n));
        assert(sh & !full_mask(n) == 0);
        lemma_bv_and_confined(sh, !(mine | opp), full_mask(n));
        lemma_bv_or_disjoint(legal_upto(mine, opp, n, (d - 1) as nat), ld, !full_mask(n));
    }
}

/// An opponent run extended step by step stays on opponent discs.
pub proof fn lemma_ext_subset(x: u64, opp: u64, dir: u64, n: u64, k: nat)
    requires
        x & !opp == 0,
    ensures
        ext_run(x, opp, dir, n, k) & !opp == 0,
    decreases k,
{
    if k > 0 {
        lemma_ext_subset(x, opp, dir, n, (k - 1) as nat);
        let y = ext_run(x, opp, dir, n, (k - 1) as nat);
        lemma_bv_ext_step(y, spec_shift(y, dir, n), opp);
    }
}

/// Every captured disc belonged to the opponent.
pub proof fn lemma_cap_subset(mine1: u64, opp: u64, n: u64, newd: u64, d: nat)
    ensures
        cap_upto(mine1, opp, n, newd, d) & !opp == 0,
    decreases d,
{
    if d == 0 {
        lemma_bv_zero(!opp);
    } else {
        lemma_cap_subset(mine1, opp, n, newd, (d - 1) as nat);
        let dir = (d - 1) as u64;
        let x0 = spec_shift(newd, dir, n) & opp;
        lemma_bv_and_subset(spec_shift(newd, dir, n), opp);
        lemma_ext_subset(x0, opp, dir, n, (n - 3) as nat);
        let cd = cap_dir(mine1, opp, dir, n, newd);
        if spec_shift(ext_run(x0, opp, dir, n, (n - 3) as nat), dir, n) & mine1 == 0 {
            lemma_bv_zero(!opp);
        }
        assert(cd & !opp == 0);
        lemma_bv_or_disjoint(cap_upto(mine1, opp, n, newd, (d - 1) as nat), cd, !opp);
    }
}

/// Placing a disc on an empty cell and flipping a subset of the opponent
/// discs keeps the two sides disjoint, keeps the board inside the grid, and
/// adds exactly the placed cell to the occupied set.
pub proof fn lemma_bv_put(b: u64, w: u64, c: u64, loc: u64, n: u64)
    by (bit_vector)
    requires
        n == 6 || n == 8,
        loc < n * n,
        b & w == 0,
        (b | w) & !full_mask(n) == 0,
        !bit_set(b, loc),
        !bit_set(w, loc),
        c & !w == 0,
    ensures
        ((b | (1u64 << loc)) ^ c) & (w ^ c) == 0,
        (((b | (1u64 << loc)) ^ c) | (w ^ c)) == (b | w) | (1u64 << loc),
        (((b | (1u64 << loc)) ^ c) | (w ^ c)) & !full_mask(n) == 0,
        bit_set((b | (1u64 << loc)) ^ c, loc),
        !bit_set(w ^ c, loc),
        !bit_set(b | w, loc),
{
}



/// Grid sizes are 6 or 8; useful case split for the solver.
pub proof fn lemma_cells_le(s: BoardSize)
    ensures
        s.nv() == 6 || s.nv() == 8,
        s.cells_spec() == s.nv() * s.nv(),
        s.cells_spec() <= 64,
{
    match s {
        BoardSize::Six => {},
        BoardSize::Eight => {},
    }
}

/// Bitwise AND and OR commute.
pub proof fn lemma_bv_comm(a: u64, b: u64)
    by (bit_vector)
    ensures
        a | b == b | a,
        a & b == b & a,
{
}

/// Mask of the bits below position `i`.
pub open spec fn low_mask(i: u64) -> u64 {
    if i >= 64 {
        0xFFFFFFFFFFFFFFFF
    } else {
        ((1u64 << i) - 1) as u64
    }
}

/// The bits of an `n` by `n` grid are exactly the bits below `n * n`.
pub proof fn lemma_low_mask_full(n: u64)
    by (bit_vector)
    requires
        n == 6 || n == 8,
    ensures
        low_mask((n * n) as u64) == full_mask(n),
{
}

/// Decoding one more cell of a board text keeps the two sides disjoint and
/// keeps every bit at or above the next cell clear.
pub proof fn lemma_decode_step(b: u64, w: u64, i: u64)
    by (bit_vector)
    requires
        i < 64,
        b & w == 0,
        (b | w) & !low_mask(i) == 0,
    ensures
        !bit_set(b, i),
        !bit_set(w, i),
        (b | (1u64 << i)) & w == 0,
        b & (w | (1u64 << i)) == 0,
        ((b | (1u64 << i)) | w) & !low_mask((i + 1) as u64) == 0,
        (b | (w | (1u64 << i))) & !low_mask((i + 1) as u64) == 0,
        (b | w) & !low_mask((i + 1) as u64) == 0,
{
}

/// Wraparound mask for one direction, as a run-time value.
fn dir_mask_x(size: BoardSize, dir: usize) -> (r: u64)
    requires
        dir < 8,
    ensures
        r == dir_mask(size.nv(), dir as u64),
{
    match size {
        BoardSize::Six => {
            if dir == 0 {
                0x7DF7DF7DF
            } else if dir == 1 {
                0x01F7DF7DF
            } else if dir == 2 {
                0xFFFFFFFFF
            } else if dir == 3 {
                0x03EFBEFBE
            } else if dir == 4 {
                0xFBEFBEFBE
            } else if dir == 5 {
                0xFBEFBEF80
            } else if dir == 6 {
                0xFFFFFFFFF
            } else {
                0x7DF7DF7C0
            }
        },
        BoardSize::Eight => {
            if dir == 0 {
                0x7F7F7F7F7F7F7F7F
            } else if dir == 1 {
                0x007F7F7F7F7F7F7F
            } else if dir == 2 {
                0xFFFFFFFFFFFFFFFF
            } else if dir == 3 {
                0x00FEFEFEFEFEFEFE
            } else if dir == 4 {
                0xFEFEFEFEFEFEFEFE
            } else if dir == 5 {
                0xFEFEFEFEFEFEFE00
            } else if dir == 6 {
                0xFFFFFFFFFFFFFFFF
            } else {
                0x7F7F7F7F7F7F7F00
            }
        },
    }
}

/// Bit distance of one step in a direction, as a run-time value.
fn shift_amt_x(size: BoardSize, dir: usize) -> (r: u64)
    requires
        dir < 8,
    ensures
        r == shift_amt(size.nv(), dir as u64),
        r <= 9,
{
    match size {
        BoardSize::Six => {
            if dir == 0 || dir == 4 {
                1
            } else if dir == 1 || dir == 5 {
                7
            } else if dir == 2 || dir == 6 {
                6
            } else {
                5
            }
        },
        BoardSize::Eight => {
            if dir == 0 || dir == 4 {
                1
            } else if dir == 1 || dir == 5 {
                9
            } else if dir == 2 || dir == 6 {
                8
            } else {
                7
            }
        },
    }
}

/// Translate a disc set one step in direction `dir`, masking off wraparound.
fn shift(disk: u64, dir: usize, size: BoardSize) -> (r: u64)
    requires
        dir < 8,
    ensures
        r == spec_shift(disk, dir as u64, size.nv()),
{
    let m: u64 = dir_mask_x(size, dir);
    let a: u64 = shift_amt_x(size, dir);
    if dir < 4 {
        (disk >> a) & m
    } else {
        (disk << a) & m
    }
}

impl BBoard {
    /// Decode a board text: one byte per cell in row-major order, `X` for
    /// black, `O` for white, `+` for empty.
    pub fn new(input: &[u8], size: BoardSize) -> (r: BBoard)
        requires
            input@.len() >= size.cells_spec(),
            forall|k: int| 0 <= k < size.cells_spec() ==> valid_board_byte(#[trigger] input@[k]),
        ensures
            r.size == size,
            r.wf(),
            (r.black, r.white) == decode_masks(input@, size.cells_spec() as nat),
            forall|j: u64| j < size.cells_spec() ==> #[trigger] r.spec_at(j) == byte_color(input@[j as int]),
    {
        proof {
            lemma_cells_le(size);
        }
        let cells: usize = size.cells();
        let mut bd = BBoard { black: 0, white: 0, size };
        let mut i: usize = 0;
        proof {
            lemma_bv_zero(0u64);
            lemma_bv_zero(!low_mask(0));
        }
        while i < cells
            invariant
                i <= cells,
                cells == size.cells_spec(),
                cells <= 64,
                input@.len() >= cells,
                forall|k: int| 0 <= k < cells ==> valid_board_byte(#[trigger] input@[k]),
                bd.size == size,
                (bd.black, bd.white) == decode_masks(input@, i as nat),
                bd.black & bd.white == 0,
                (bd.black | bd.white) & !low_mask(i as u64) == 0,
                forall|j: u64| j < i ==> #[trigger] bd.spec_at(j) == byte_color(input@[j as int]),
            decreases cells - i,
        {
            let b = input[i];
            let ghost prev = bd;
            proof {
                lemma_decode_step(bd.black, bd.white, i as u64);
            }
            if b == 88 {
                bd.assign(i as i32, Color::Black);
            } else if b == 79 {
                bd.assign(i as i32, Color::White);
            } else {
                bd.assign(i as i32, Color::Empty);
            }
            proof {
                assert((i as i32) as u64 == i as u64);
                assert forall|j: u64| j < i + 1 implies #[trigger] bd.spec_at(j) == byte_color(
                    input@[j as int],
                ) by {
                    lemma_bv_or_bit(prev.black, i as u64, j);
                    lemma_bv_or_bit(prev.white, i as u64, j);
                    if j < i {
                        assert(prev.spec_at(j) == byte_color(input@[j as int]));
                        assert(bit_set(bd.black, j) == bit_set(prev.black, j));
                        assert(bit_set(bd.white, j) == bit_set(prev.white, j));
                    } else {
                        assert(!bit_set(prev.black, i as u64) && !bit_set(prev.white, i as u64));
                    }
                    assert(bd.spec_at(j) == byte_color(input@[j as int]));
                }
            }
            i += 1;
        }
        proof {
            lemma_low_mask_full(size.nv());
        }
        bd
    }

    /// A field-for-field copy of the board.
    pub fn copy(&self) -> (r: BBoard)
        ensures
            r == *self,
    {
        BBoard { black: self.black, white: self.white, size: self.size }
    }

    /// Occupant of cell `loc`.
    pub fn at(&self, loc: i32) -> (r: Color)
        requires
            0 <= loc < self.size.cells_spec(),
        ensures
            r == self.spec_at(loc as u64),
    {
        proof {
            lemma_cells_le(self.size);
        }
        let sh: u64 = U1 << loc;
        if self.black & sh != 0 {
            Color::Black
        } else if self.white & sh != 0 {
            Color::White
        } else {
            Color::Empty
        }
    }

    /// Set the bit for `loc` in the mask of `cl`; the empty marker sets
    /// nothing.
    pub fn assign(&mut self, loc: i32, cl: Color)
        requires
            0 <= loc < old(self).size.cells_spec(),
        ensures
            final(self).size == old(self).size,
            final(self).black == if cl is Black {
                old(self).black | (1u64 << (loc as u64))
            } else {
                old(self).black
            },
            final(self).white == if cl is White {
                old(self).white | (1u64 << (loc as u64))
            } else {
                old(self).white
            },
    {
        proof {
            lemma_cells_le(old(self).size);
        }
        let sh: u64 = U1 << loc;
        match cl {
            Color::Black => {
                self.black = self.black | sh;
            },
            Color::White => {
                self.white = self.white | sh;
            },
            Color::Empty => {},
        }
    }

    /// All cells where `cl` may legally place a disc, as a bitmask.
    pub fn all_valid_loc(&self, cl: Color) -> (r: u64)
        requires
            self.wf(),
            two_sided(cl),
        ensures
            r == self.legal_mask(cl),
            r & self.occupied() == 0,
            r & !full_mask(self.n()) == 0,
    {
        proof {
            lemma_cells_le(self.size);
        }
        let mine: u64;
        let opp: u64;
        if cl == Color::Black {
            mine = self.black;
            opp = self.white;
        } else {
            mine = self.white;
            opp = self.black;
        }
        let empty: u64 = !(mine | opp);
        let ext_steps: usize = self.size.extent() - 3;
        let mut legal: u64 = 0;
        let mut dir: usize = 0;
        while dir < 8
            invariant
                dir <= 8,
                ext_steps == self.n() - 3,
                empty == !(mine | opp),
                legal == legal_upto(mine, opp, self.n(), dir as nat),
            decreases 8 - dir,
        {
            let mut x: u64 = shift(mine, dir, self.size) & opp;
            let ghost x0 = x;
            let mut k: usize = 0;
            while k < ext_steps
                invariant
                    dir < 8,
                    k <= ext_steps,
                    ext_steps == self.n() - 3,
                    x == ext_run(x0, opp, dir as u64, self.n(), k as nat),
                decreases ext_steps - k,
            {
                x = x | (shift(x, dir, self.size) & opp);
                k += 1;
            }
            legal = legal | (shift(x, dir, self.size) & empty);
            dir += 1;
        }
        proof {
            lemma_legal_props(mine, opp, self.n(), 8);
            lemma_bv_comm(self.white, self.black);
        }
        legal
    }

    /// Whether `cl` has at least one legal move.
    pub fn has_valid_move(&self, cl: Color) -> (r: bool)
        requires
            self.wf(),
            two_sided(cl),
        ensures
            r == (self.legal_mask(cl) != 0),
    {
        self.all_valid_loc(cl) != 0
    }

    /// Whether placing a disc of `cl` on `loc` is legal.
    pub fn is_valid_loc(&self, loc: i32, cl: Color) -> (r: bool)
        requires
            self.wf(),
            two_sided(cl),
            0 <= loc < self.size.cells_spec(),
        ensures
            r == bit_set(self.legal_mask(cl), loc as u64),
    {
        proof {
            lemma_cells_le(self.size);
        }
        let mask: u64 = U1 << loc;
        self.all_valid_loc(cl) & mask != 0
    }

    /// Number of discs held by `cl`.
    pub fn count(&self, cl: Color) -> (r: i32)
        requires
            two_sided(cl),
        ensures
            r == popcnt64(self.mask_of(cl)),
            0 <= r <= 64,
    {
        match cl {
            Color::Black => hamming_wgt(self.black),
            Color::White => hamming_wgt(self.white),
            Color::Empty => 0,
        }
    }

    /// Number of unoccupied cells.
    pub fn empty_count(&self) -> (r: i32)
        requires
            self.wf(),
        ensures
            r == self.size.cells_spec() - popcnt64(self.occupied()),
            0 <= r <= self.size.cells_spec(),
    {
        proof {
            lemma_cells_le(self.size);
            lemma_pop_area(self.black | self.white, self.n());
            lemma_pop_range(self.black | self.white);
        }
        let cells: usize = self.size.cells();
        cells as i32 - hamming_wgt(self.black | self.white)
    }

    /// Whether neither side has a legal move.
    pub fn is_over(&self) -> (r: bool)
        requires
            self.wf(),
        ensures
            r == self.spec_over(),
    {
        !(self.has_valid_move(Color::Black) || self.has_valid_move(Color::White))
    }

    /// Number of legal moves available to `cl`.
    pub fn mobility(&self, cl: Color) -> (r: i32)
        requires
            self.wf(),
            two_sided(cl),
        ensures
            r == popcnt64(self.legal_mask(cl)),
            0 <= r <= 64,
    {
        let allv = self.all_valid_loc(cl);
        hamming_wgt(allv)
    }
}




/// A bit of a union is set exactly when it is set in one operand.
pub proof fn lemma_bv_bit_or2(a: u64, b: u64, i: u64)
    by (bit_vector)
    ensures
        bit_set(a | b, i) == (bit_set(a, i) || bit_set(b, i)),
{
}

/// Law: every legal move of either side targets an empty cell of the grid.
pub proof fn lemma_legal_moves_empty(bd: BBoard, cl: Color)
    requires
        bd.wf(),
    ensures
        bd.legal_mask(cl) & bd.occupied() == 0,
        bd.legal_mask(cl) & !full_mask(bd.n()) == 0,
{
    lemma_cells_le(bd.size);
    lemma_bv_comm(bd.white, bd.black);
    if cl is Black {
        lemma_legal_props(bd.black, bd.white, bd.n(), 8);
    } else if cl is White {
        lemma_legal_props(bd.white, bd.black, bd.n(), 8);
    } else {
        lemma_bv_zero(bd.occupied());
        lemma_bv_zero(!full_mask(bd.n()));
    }
}

/// Law: the game is over exactly when neither side has a legal move.
pub proof fn lemma_terminal_iff_no_moves(bd: BBoard)
    ensures
        bd.spec_over() <==> (bd.legal_mask(Color::Black) == 0 && bd.legal_mask(Color::White)
            == 0),
{
}

/// Law: applying a move places one disc on an empty cell and otherwise only
/// flips discs, so the occupied-cell count rises by exactly one.
pub proof fn lemma_put_occupancy(bd: BBoard, loc: u64, cl: Color)
    requires
        bd.wf(),
        two_sided(cl),
        loc < bd.size.cells_spec(),
        bd.spec_at(loc) == Color::Empty,
    ensures
        bd.spec_put(loc, cl).size == bd.size,
        bd.spec_put(loc, cl).wf(),
        bd.spec_put(loc, cl).occupied() == bd.occupied() | (1u64 << loc),
        popcnt64(bd.spec_put(loc, cl).occupied()) == popcnt64(bd.occupied()) + 1,
        bd.spec_put(loc, cl).spec_at(loc) == cl,
{
    lemma_cells_le(bd.size);
    let n = bd.n();
    if cl is Black {
        let m1 = bd.black | (1u64 << loc);
        let c = spec_captured(m1, bd.white, n, loc);
        lemma_cap_subset(m1, bd.white, n, 1u64 << loc, 8);
        lemma_bv_put(bd.black, bd.white, c, loc, n);
    } else {
        let m1 = bd.white | (1u64 << loc);
        let c = spec_captured(m1, bd.black, n, loc);
        lemma_cap_subset(m1, bd.black, n, 1u64 << loc, 8);
        lemma_bv_comm(bd.white, bd.black);
        lemma_bv_put(bd.white, bd.black, c, loc, n);
        lemma_bv_comm(bd.black ^ c, (bd.white | (1u64 << loc)) ^ c);
        lemma_bv_comm(bd.black, bd.white | (1u64 << loc));
    }
    lemma_pop_insert(bd.occupied(), loc);
}

impl BBoard {
    /// Place a disc of `cl` on `loc` (already set by `assign`) and flip every
    /// bounded opponent run radiating from it.
    pub fn flip(&mut self, loc: i32, cl: Color)
        requires
            two_sided(cl),
            0 <= loc < old(self).size.cells_spec(),
        ensures
            final(self).size == old(self).size,
            cl is Black ==> (final(self).black, final(self).white) == spec_flip_masks(
                old(self).black,
                old(self).white,
                old(self).n(),
                loc as u64,
            ),
            cl is White ==> (final(self).white, final(self).black) == spec_flip_masks(
                old(self).white,
                old(self).black,
                old(self).n(),
                loc as u64,
            ),
    {
        proof {
            lemma_cells_le(old(self).size);
        }
        let new_disk: u64 = U1 << loc;
        let ext_steps: usize = self.size.extent() - 3;
        let mut captured: u64 = 0;
        if cl == Color::Black {
            self.black = self.black | new_disk;
            let ghost mine1 = self.black;
            let mut dir: usize = 0;
            while dir < 8
                invariant
                    dir <= 8,
                    self.size == old(self).size,
                    ext_steps == self.n() - 3,
                    self.black == mine1,
                    self.white == old(self).white,
                    new_disk == 1u64 << (loc as u64),
                    mine1 == old(self).black | new_disk,
                    captured == cap_upto(mine1, self.white, self.n(), new_disk, dir as nat),
                decreases 8 - dir,
            {
                let mut x: u64 = shift(new_disk, dir, self.size) & self.white;
                let ghost x0 = x;
                let mut k: usize = 0;
                while k < ext_steps
                    invariant
                        dir < 8,
                        k <= ext_steps,
                        self.size == old(self).size,
                        ext_steps == self.n() - 3,
                        self.white == old(self).white,
                        x == ext_run(x0, self.white, dir as u64, self.n(), k as nat),
                    decreases ext_steps - k,
                {
                    x = x | (shift(x, dir, self.size) & self.white);
                    k += 1;
                }
                let bounding: u64 = shift(x, dir, self.size) & self.black;
                if bounding != 0 {
                    captured = captured | x;
                } else {
                    proof {
                        lemma_bv_zero(captured);
                    }
                }
                dir += 1;
            }
            self.black = self.black ^ captured;
            self.white = self.white ^ captured;
        } else {
            self.white = self.white | new_disk;
            let ghost mine1 = self.white;
            let mut dir: usize = 0;
            while dir < 8
                invariant
                    dir <= 8,
                    self.size == old(self).size,
                    ext_steps == self.n() - 3,
                    self.white == mine1,
                    self.black == old(self).black,
                    new_disk == 1u64 << (loc as u64),
                    mine1 == old(self).white | new_disk,
                    captured == cap_upto(mine1, self.black, self.n(), new_disk, dir as nat),
                decreases 8 - dir,
            {
                let mut x: u64 = shift(new_disk, dir, self.size) & self.black;
                let ghost x0 = x;
                let mut k: usize = 0;
                while k < ext_steps
                    invariant
                        dir < 8,
                        k <= ext_steps,
                        self.size == old(self).size,
                        ext_steps == self.n() - 3,
                        self.black == old(self).black,
                        x == ext_run(x0, self.black, dir as u64, self.n(), k as nat),
                    decreases ext_steps - k,
                {
                    x = x | (shift(x, dir, self.size) & self.black);
                    k += 1;
                }
                let bounding: u64 = shift(x, dir, self.size) & self.white;
                if bounding != 0 {
                    captured = captured | x;
                } else {
                    proof {
                        lemma_bv_zero(captured);
                    }
                }
                dir += 1;
            }
            self.black = self.black ^ captured;
            self.white = self.white ^ captured;
        }
    }

    /// Apply a move: place a disc of `cl` on the empty cell `loc` and flip
    /// every captured run. The caller must own the board exclusively.
    pub fn put(&mut self, loc: i32, cl: Color)
        requires
            old(self).wf(),
            two_sided(cl),
            0 <= loc < old(self).size.cells_spec(),
            old(self).spec_at(loc as u64) == Color::Empty,
        ensures
            *final(self) == old(self).spec_put(loc as u64, cl),
            final(self).size == old(self).size,
            final(self).wf(),
            final(self).occupied() == old(self).occupied() | (1u64 << (loc as u64)),
            popcnt64(final(self).occupied()) == popcnt64(old(self).occupied()) + 1,
            final(self).spec_at(loc as u64) == cl,
    {
        proof {
            lemma_cells_le(old(self).size);
        }
        self.assign(loc, cl);
        self.flip(loc, cl);
        proof {
            let locu = loc as u64;
            if cl is Black {
                lemma_bv_or_idem(old(self).black, 1u64 << locu);
            } else {
                lemma_bv_or_idem(old(self).white, 1u64 << locu);
            }
            lemma_put_occupancy(*old(self), locu, cl);
        }
    }

    /// Apply a move only if `loc` is on the grid, empty, and legal for `cl`;
    /// otherwise leave the board unchanged and report failure.
    pub fn put_and_check(&mut self, loc: i32, cl: Color) -> (r: bool)
        requires
            old(self).wf(),
            two_sided(cl),
        ensures
            r == (0 <= loc < old(self).size.cells_spec() && bit_set(
                old(self).legal_mask(cl),
                loc as u64,
            )),
            r ==> *final(self) == old(self).spec_put(loc as u64, cl),
            r ==> final(self).wf() && popcnt64(final(self).occupied()) == popcnt64(
                old(self).occupied(),
            ) + 1,
            !r ==> *final(self) == *old(self),
    {
        proof {
            lemma_cells_le(old(self).size);
        }
        let cells: usize = self.size.cells();
        if loc < 0 || loc >= cells as i32 {
            return false;
        }
        let occupied_here = self.at(loc) != Color::Empty;
        let legal_here = self.is_valid_loc(loc, cl);
        proof {
            lemma_legal_moves_empty(*old(self), cl);
            lemma_bv_bit_or2(old(self).black, old(self).white, loc as u64);
            if occupied_here {
                lemma_bv_comm(old(self).legal_mask(cl), old(self).occupied());
                if bit_set(old(self).occupied(), loc as u64) {
                    lemma_bv_disjoint_bit(
                        old(self).occupied(),
                        old(self).legal_mask(cl),
                        loc as u64,
                    );
                }
            }
        }
        if occupied_here || !legal_here {
            return false;
        }
        self.put(loc, cl);
        true
    }
}



/// Positional score of one side: each symmetry class of cells counted and
/// weighted by a fixed, board-size-specific table.
pub open spec fn side_score(m: u64, n: u64) -> int {
    if n == 6 {
        popcnt64(m & 0x840000021) * 100 + popcnt64(m & 0x4A1000852) * (-36) + popcnt64(
            m & 0x30086100C,
        ) * 53 + popcnt64(m & 0x012000480) * (-69) + popcnt64(m & 0x00C492300) * (-10)
            + popcnt64(m & 0x00030C000) * (-2)
    } else {
        popcnt64(m & 0x8100000000000081) * 800 + popcnt64(m & 0x0042000000004200) * (-552)
            + popcnt64(m & 0x0000240000240000) * 62 + popcnt64(m & 0x0000001818000000) * (-18)
            + popcnt64(m & 0x4281000000008142) * (-286) + popcnt64(m & 0x2400810000810024)
            * 426 + popcnt64(m & 0x1800008181000018) * (-24) + popcnt64(m & 0x0024420000422400)
            * (-177) + popcnt64(m & 0x0018004242001800) * (-82) + popcnt64(
            m & 0x0000182424180000,
        ) * 8
    }
}

/// Positional-score cap: no side score can leave this band.
pub const EVAL_CAP: i32 = 400000;

impl BBoard {
    /// Positional score of `cl` minus the positional score of the opponent.
    pub open spec fn spec_eval(self, cl: Color) -> int {
        if cl is Black {
            side_score(self.black, self.n()) - side_score(self.white, self.n())
        } else if cl is White {
            side_score(self.white, self.n()) - side_score(self.black, self.n())
        } else {
            0
        }
    }

    /// Weighted positional evaluation of the board from the point of view of
    /// `cl`, using the fixed per-size weight tables.
    pub fn eval(&self, cl: Color) -> (r: i32)
        requires
            self.wf(),
            two_sided(cl),
        ensures
            r == self.spec_eval(cl),
            -EVAL_CAP <= r <= EVAL_CAP,
    {
        proof {
            lemma_cells_le(self.size);
        }
        let mut bv: i32 = 0;
        let mut wv: i32 = 0;
        let mut cnt: i32;
        match self.size {
            BoardSize::Six => {
                cnt = hamming_wgt(self.black & 0x840000021);
                bv = bv + cnt * 100;
                cnt = hamming_wgt(self.black & 0x4A1000852);
                bv = bv - cnt * 36;
                cnt = hamming_wgt(self.black & 0x30086100C);
                bv = bv + cnt * 53;
                cnt = hamming_wgt(self.black & 0x012000480);
                bv = bv - cnt * 69;
                cnt = hamming_wgt(self.black & 0x00C492300);
                bv = bv - cnt * 10;
                cnt = hamming_wgt(self.black & 0x00030C000);
                bv = bv - cnt * 2;
                cnt = hamming_wgt(self.white & 0x840000021);
                wv = wv + cnt * 100;
                cnt = hamming_wgt(self.white & 0x4A1000852);
                wv = wv - cnt * 36;
                cnt = hamming_wgt(self.white & 0x30086100C);
                wv = wv + cnt * 53;
                cnt = hamming_wgt(self.white & 0x012000480);
                wv = wv - cnt * 69;
                cnt = hamming_wgt(self.white & 0x00C492300);
                wv = wv - cnt * 10;
                cnt = hamming_wgt(self.white & 0x00030C000);
                wv = wv - cnt * 2;
            },
            BoardSize::Eight => {
                cnt = hamming_wgt(self.black & 0x8100000000000081);
                bv = bv + cnt * 800;
                cnt = hamming_wgt(self.black & 0x0042000000004200);
                bv = bv - cnt * 552;
                cnt = hamming_wgt(self.black & 0x0000240000240000);
                bv = bv + cnt * 62;
                cnt = hamming_wgt(self.black & 0x0000001818000000);
                bv = bv - cnt * 18;
                cnt = hamming_wgt(self.black & 0x4281000000008142);
                bv = bv - cnt * 286;
                cnt = hamming_wgt(self.black & 0x2400810000810024);
                bv = bv + cnt * 426;
                cnt = hamming_wgt(self.black & 0x1800008181000018);
                bv = bv - cnt * 24;
                cnt = hamming_wgt(self.black & 0x0024420000422400);
                bv = bv - cnt * 177;
                cnt = hamming_wgt(self.black & 0x0018004242001800);
                bv = bv - cnt * 82;
                cnt = hamming_wgt(self.black & 0x0000182424180000);
                bv = bv + cnt * 8;
                cnt = hamming_wgt(self.white & 0x8100000000000081);
                wv = wv + cnt * 800;
                cnt = hamming_wgt(self.white & 0x0042000000004200);
                wv = wv - cnt * 552;
                cnt = hamming_wgt(self.white & 0x0000240000240000);
                wv = wv + cnt * 62;
                cnt = hamming_wgt(self.white & 0x0000001818000000);
                wv = wv - cnt * 18;
                cnt = hamming_wgt(self.white & 0x4281000000008142);
                wv = wv - cnt * 286;
                cnt = hamming_wgt(self.white & 0x2400810000810024);
                wv = wv + cnt * 426;
                cnt = hamming_wgt(self.white & 0x1800008181000018);
                wv = wv - cnt * 24;
                cnt = hamming_wgt(self.white & 0x0024420000422400);
                wv = wv - cnt * 177;
                cnt = hamming_wgt(self.white & 0x0018004242001800);
                wv = wv - cnt * 82;
                cnt = hamming_wgt(self.white & 0x0000182424180000);
                wv = wv + cnt * 8;
            },
        }
        match cl {
            Color::Black => bv - wv,
            Color::White => wv - bv,
            Color::Empty => 0,
        }
    }
}



/// Scanning past bit `i` without finding it keeps the low bits clear.
pub proof fn lemma_bv_low_step(m: u64, i: u64)
    by (bit_vector)
    requires
        i < 64,
        !bit_set(m, i),
        m & low_mask(i) == 0,
    ensures
        m & low_mask((i + 1) as u64) == 0,
{
}

/// A mask disjoint from `f` and from its complement is zero.
pub proof fn lemma_bv_split_zero(m: u64, f: u64)
    by (bit_vector)
    requires
        m & f == 0,
        m & !f == 0,
    ensures
        m == 0,
{
}



/// Counting cells one at a time: the bit at `i` adds one set bit or none.
#[verifier::rlimit(100)]
proof fn lemma_bv_pop_low_step(m: u64, i: u64)
    by (bit_vector)
    requires
        i < 64,
    ensures
        bit_set(m, i) ==> popcount64(m & low_mask((i + 1) as u64)) == popcount64(m & low_mask(i))
            + 1,
        !bit_set(m, i) ==> popcount64(m & low_mask((i + 1) as u64)) == popcount64(
            m & low_mask(i),
        ),
        popcount64(m & low_mask(0)) == 0,
{
}

/// Counting cells one at a time: the bit at `i` adds one set bit or none.
pub proof fn lemma_pop_low_step(m: u64, i: u64)
    requires
        i < 64,
    ensures
        bit_set(m, i) ==> popcnt64(m & low_mask((i + 1) as u64)) == popcnt64(m & low_mask(i)) + 1,
        !bit_set(m, i) ==> popcnt64(m & low_mask((i + 1) as u64)) == popcnt64(m & low_mask(i)),
        popcnt64(m & low_mask(0)) == 0,
{
    lemma_bv_pop_low_step(m, i);
    lemma_popcnt_open(m & low_mask((i + 1) as u64));
    lemma_popcnt_open(m & low_mask(i));
    lemma_popcnt_open(m & low_mask(0));
}

/// A mask confined to the grid is unchanged by masking to the grid's cells.
pub proof fn lemma_bv_confined_low(m: u64, n: u64)
    by (bit_vector)
    requires
        n == 6 || n == 8,
        m & !full_mask(n) == 0,
    ensures
        m & low_mask((n * n) as u64) == m,
{
}


} // verus!
