use vstd::prelude::*;
use crate::bits::{popcnt64, bit_set, lemma_pop_range, lemma_nonzero_has_bit};
use crate::side::{Color, opposite, two_sided};
use crate::board::{
    BBoard, BoardSize, EVAL_CAP, side_score, full_mask, lemma_cells_le, lemma_legal_moves_empty,
    lemma_bv_bit_or2, lemma_bv_disjoint_bit, lemma_bv_bit_in_grid, lemma_bv_zero,
    lemma_bv_low_step, lemma_bv_split_zero, lemma_low_mask_full, low_mask, lemma_pop_low_step,
    lemma_bv_confined_low,
};
use crate::nodes::{Node, Nodes, move_chars};
use vstd::seq_lib::group_to_multiset_ensures;

verus! {

pub const MAX_I32: i32 = i32::MAX;
pub const MIN_I32: i32 = i32::MIN;

/// The side to move at a search node: the engine's own color at a maximizing
/// node, its opponent at a minimizing node.
pub open spec fn mover_of(color: Color, maxing: bool) -> Color {
    if maxing {
        color
    } else {
        opposite(color)
    }
}

/// Leaf value for the engine playing `color`: positional score in the
/// strategic phase, disc difference in the endgame phase.
pub open spec fn spec_heuristic(color: Color, phase: int, bd: BBoard) -> int {
    if phase == 1 {
        bd.spec_eval(color)
    } else {
        popcnt64(bd.mask_of(color)) - popcnt64(bd.mask_of(opposite(color)))
    }
}

/// 0 when the side to move has a legal move, 1 when it must pass; a pass
/// hands the turn over without consuming depth, so it ranks the recursion.
pub open spec fn pass_rank(color: Color, bd: BBoard, maxing: bool) -> int {
    if bd.legal_mask(mover_of(color, maxing)) != 0 {
        0
    } else {
        1
    }
}

/// Depth-limited minimax value of a position, the reference semantics of the
/// search: heuristic at the horizon or when the game is over, a depth-free
/// pass when the side to move is blocked, otherwise the best child value.
pub open spec fn minimax(color: Color, phase: int, bd: BBoard, depth: int, maxing: bool) -> int
    decreases depth, pass_rank(color, bd, maxing), bd.size.cells_spec() + 1,
{
    if depth <= 0 || bd.spec_over() || !two_sided(color) {
        spec_heuristic(color, phase, bd)
    } else if bd.legal_mask(mover_of(color, maxing)) == 0 {
        minimax(color, phase, bd, depth, !maxing)
    } else {
        scan_value(color, phase, bd, depth, maxing, 0)
    }
}

/// Best child value over the legal moves at cell indices `i` and above,
/// folded in increasing cell order; the fold starts from the worst value for
/// the side to move.
pub open spec fn scan_value(
    color: Color,
    phase: int,
    bd: BBoard,
    depth: int,
    maxing: bool,
    i: int,
) -> int
    decreases depth, 0int, bd.size.cells_spec() - i,
{
    if depth <= 0 || i < 0 || i >= bd.size.cells_spec() {
        if maxing {
            MIN_I32 as int
        } else {
            MAX_I32 as int
        }
    } else {
        let rest = scan_value(color, phase, bd, depth, maxing, i + 1);
        if bit_set(bd.legal_mask(mover_of(color, maxing)), i as u64) {
            let c = minimax(
                color,
                phase,
                bd.spec_put(i as u64, mover_of(color, maxing)),
                depth - 1,
                !maxing,
            );
            if maxing {
                if c >= rest {
                    c
                } else {
                    rest
                }
            } else {
                if c <= rest {
                    c
                } else {
                    rest
                }
            }
        } else {
            rest
        }
    }
}

/// Value of the position reached by the side to move playing cell `i`.
pub open spec fn child_value(
    color: Color,
    phase: int,
    bd: BBoard,
    depth: int,
    maxing: bool,
    i: int,
) -> int {
    minimax(color, phase, bd.spec_put(i as u64, mover_of(color, maxing)), depth - 1, !maxing)
}

/// Empty-cell count above which the strategic phase is used.
pub open spec fn phase_threshold(n: u64) -> int {
    if n == 6 {
        22
    } else {
        20
    }
}

/// Fixed depth bound of the strategic phase.
pub open spec fn phase1_depth(n: u64) -> int {
    if n == 6 {
        16
    } else {
        12
    }
}

/// Game phase of a position: strategic while many cells are empty, endgame
/// after the empty-cell count falls to the threshold.
pub open spec fn spec_phase(bd: BBoard) -> int {
    if bd.size.cells_spec() - popcnt64(bd.occupied()) > phase_threshold(bd.n()) {
        1
    } else {
        2
    }
}

/// Ordering score of a candidate move: the positional score of the board it
/// produces in the strategic phase, the opponent's mobility on that board in
/// the endgame phase.
pub open spec fn spec_move_score(phase: int, bd: BBoard, cl: Color, loc: int) -> int {
    if phase == 1 {
        bd.spec_put(loc as u64, cl).spec_eval(cl)
    } else {
        popcnt64(bd.spec_put(loc as u64, cl).legal_mask(opposite(cl)))
    }
}

/// The move-selection engine: its own side, the derived opponent side, the
/// current game phase and the current depth bound.
pub struct AI {
    pub color: Color,
    pub opp: Color,
    pub phase: i32,
    pub depth: i32,
    pub size: BoardSize,
}

impl AI {
    /// The engine's fields are consistent: a real side, its true opponent,
    /// a known phase, a non-negative depth bound.
    pub open spec fn wf(self) -> bool {
        &&& two_sided(self.color)
        &&& self.opp == opposite(self.color)
        &&& (self.phase == 1 || self.phase == 2)
        &&& self.depth >= 0
    }

    /// Minimax value of `bd` under this engine's side and phase.
    pub open spec fn value_of(self, bd: BBoard, depth: int, maxing: bool) -> int {
        minimax(self.color, self.phase as int, bd, depth, maxing)
    }

    /// A fresh engine playing `color` on grids of `size`.
    pub fn new(color: Color, size: BoardSize) -> (r: AI)
        requires
            two_sided(color),
        ensures
            r.color == color,
            r.opp == opposite(color),
            r.phase == 1,
            r.depth == 0,
            r.size == size,
            r.wf(),
    {
        let ai = AI { color, opp: color.reverse(), phase: 1, depth: 0, size };
        ai
    }

    /// Derive the game phase from the remaining empty-cell count.
    pub fn set_phase(&mut self, bd: &BBoard)
        requires
            old(self).wf(),
            bd.wf(),
            bd.size == old(self).size,
        ensures
            final(self).phase == spec_phase(*bd),
            final(self).color == old(self).color,
            final(self).opp == old(self).opp,
            final(self).depth == old(self).depth,
            final(self).size == old(self).size,
            final(self).wf(),
    {
        proof {
            lemma_cells_le(self.size);
        }
        let empty = bd.empty_count();
        let threshold: i32 = match self.size {
            BoardSize::Six => 22,
            BoardSize::Eight => 20,
        };
        if empty > threshold {
            self.phase = 1;
        } else {
            self.phase = 2;
        }
    }

    /// Derive the depth bound from the phase: a fixed shallow bound in the
    /// strategic phase, effectively unbounded in the endgame phase.
    pub fn set_depth(&mut self)
        requires
            old(self).wf(),
        ensures
            final(self).depth == if old(self).phase == 1 {
                phase1_depth(old(self).size.nv())
            } else {
                MAX_I32 as int
            },
            final(self).color == old(self).color,
            final(self).opp == old(self).opp,
            final(self).phase == old(self).phase,
            final(self).size == old(self).size,
            final(self).wf(),
    {
        if self.phase == 1 {
            self.depth = match self.size {
                BoardSize::Six => 16,
                BoardSize::Eight => 12,
            };
        } else {
            self.depth = MAX_I32;
        }
    }

    /// Leaf evaluation of a position for the engine's side.
    pub fn heuristic(&self, bd: &BBoard) -> (r: i32)
        requires
            self.wf(),
            bd.wf(),
            bd.size == self.size,
        ensures
            r == spec_heuristic(self.color, self.phase as int, *bd),
            -EVAL_CAP <= r <= EVAL_CAP,
    {
        if self.phase == 1 {
            bd.eval(self.color)
        } else {
            bd.count(self.color) - bd.count(self.opp)
        }
    }

    /// All legal moves of `cl`, each scored on the board it would produce and
    /// sorted to improve pruning: best positional outcome first in the
    /// strategic phase, least opponent mobility first in the endgame phase.
    pub fn sorted_valid_nodes(&self, bd: &BBoard, cl: Color) -> (r: Nodes)
        requires
            self.wf(),
            bd.wf(),
            bd.size == self.size,
            two_sided(cl),
        ensures
            forall|k: int|
                0 <= k < r.items().len() ==> 0 <= (#[trigger] r.items()[k]).loc
                    < bd.size.cells_spec() && bit_set(bd.legal_mask(cl), r.items()[k].loc as u64),
            forall|j: int|
                0 <= j < bd.size.cells_spec() && #[trigger] bit_set(bd.legal_mask(cl), j as u64)
                    ==> exists|k: int|
                    0 <= k < r.items().len() && (#[trigger] r.items()[k]).loc == j,
            (r.items().len() == 0) == (bd.legal_mask(cl) == 0),
            r.items().len() == popcnt64(bd.legal_mask(cl)),
            forall|k: int|
                0 <= k < r.items().len() ==> (#[trigger] r.items()[k]).value == spec_move_score(
                    self.phase as int,
                    *bd,
                    cl,
                    r.items()[k].loc as int,
                ),
            self.phase == 1 ==> forall|a: int, b: int|
                0 <= a < b < r.items().len() ==> r.items()[a].value >= r.items()[b].value,
            self.phase == 2 ==> forall|a: int, b: int|
                0 <= a < b < r.items().len() ==> r.items()[a].value <= r.items()[b].value,
    {
        proof {
            lemma_cells_le(self.size);
            lemma_legal_moves_empty(*bd, cl);
        }
        let all_valid: u64 = bd.all_valid_loc(cl);
        let mut all: Nodes = Nodes::new();
        let cells: i32 = self.size.cells() as i32;
        let phase1 = self.phase == 1;
        let op = cl.reverse();
        let mut loc: i32 = 0;
        proof {
            assert(all_valid & low_mask(0u64) == 0) by (bit_vector);
            lemma_pop_low_step(all_valid, 0);
        }
        while loc < cells
            invariant
                0 <= loc <= cells,
                cells == bd.size.cells_spec(),
                cells <= 64,
                bd.wf(),
                self.wf(),
                bd.size == self.size,
                two_sided(cl),
                two_sided(op),
                all_valid == bd.legal_mask(cl),
                all_valid & bd.occupied() == 0,
                all_valid & !full_mask(bd.n()) == 0,
                forall|k: int|
                    0 <= k < all.items().len() ==> 0 <= (#[trigger] all.items()[k]).loc < loc
                        && bit_set(all_valid, all.items()[k].loc as u64),
                forall|j: int|
                    0 <= j < loc && #[trigger] bit_set(all_valid, j as u64) ==> exists|k: int|
                        0 <= k < all.items().len() && (#[trigger] all.items()[k]).loc == j,
                all.items().len() == 0 ==> all_valid & low_mask(loc as u64) == 0,
                op == opposite(cl),
                phase1 == (self.phase == 1),
                all.items().len() == popcnt64(all_valid & low_mask(loc as u64)),
                forall|k: int|
                    0 <= k < all.items().len() ==> (#[trigger] all.items()[k]).value
                        == spec_move_score(
                        self.phase as int,
                        *bd,
                        cl,
                        all.items()[k].loc as int,
                    ),
            decreases cells - loc,
        {
            proof {
                crate::board::lemma_bv_comm(1u64 << (loc as u64), all_valid);
                lemma_pop_low_step(all_valid, loc as u64);
            }
            if (U1 << loc) & all_valid != 0 {
                proof {
                    lemma_bv_bit_or2(bd.black, bd.white, loc as u64);
                    lemma_bv_disjoint_bit(all_valid, bd.occupied(), loc as u64);
                }
                let mut tmp = bd.copy();
                tmp.put(loc, cl);
                let score: i32 = if phase1 {
                    tmp.eval(cl)
                } else {
                    tmp.mobility(op)
                };
                proof {
                    assert(tmp == bd.spec_put(loc as u64, cl));
                    assert((loc as int) as u64 == loc as u64);
                    assert(score == spec_move_score(self.phase as int, *bd, cl, loc as int));
                }
                let ghost prev = all;
                all.push(Node::new(loc, score));
                proof {
                    assert forall|k: int| 0 <= k < all.items().len() implies 0 <= (
                    #[trigger] all.items()[k]).loc < loc + 1 && bit_set(
                        all_valid,
                        all.items()[k].loc as u64,
                    ) by {
                        if k < prev.items().len() {
                            assert(all.items()[k] == prev.items()[k]);
                        } else {
                            assert(all.items()[k].loc == loc);
                        }
                    }
                    assert forall|j: int|
                        0 <= j < loc + 1 && #[trigger] bit_set(all_valid, j as u64) implies exists|
                        k: int,
                    |
                        0 <= k < all.items().len() && (#[trigger] all.items()[k]).loc == j by {
                        if j == loc {
                            assert(all.items()[all.items().len() - 1].loc == j);
                        } else {
                            let k0 = choose|k0: int|
                                0 <= k0 < prev.items().len() && (#[trigger] prev.items()[k0]).loc
                                    == j;
                            assert(all.items()[k0].loc == j);
                        }
                    }
                    assert forall|k: int| 0 <= k < all.items().len() implies (
                    #[trigger] all.items()[k]).value == spec_move_score(
                        self.phase as int,
                        *bd,
                        cl,
                        all.items()[k].loc as int,
                    ) by {
                        if k < prev.items().len() {
                            assert(all.items()[k] == prev.items()[k]);
                        } else {
                            assert(all.items()[k].loc == loc);
                        }
                    }
                }
            } else {
                proof {
                    if all.items().len() == 0 {
                        lemma_bv_low_step(all_valid, loc as u64);
                    }
                    assert forall|j: int|
                        0 <= j < loc + 1 && #[trigger] bit_set(all_valid, j as u64) implies exists|
                        k: int,
                    |
                        0 <= k < all.items().len() && (#[trigger] all.items()[k]).loc == j by {
                        assert(j != loc);
                        let k0 = choose|k0: int|
                            0 <= k0 < all.items().len() && (#[trigger] all.items()[k0]).loc == j;
                        assert(all.items()[k0].loc == j);
                    }
                }
            }
            loc += 1;
        }
        let ghost pre = all;
        if phase1 {
            all.sort_desc();
        } else {
            all.sort_asc();
        }
        proof {
            broadcast use group_to_multiset_ensures;

            assert forall|k: int| 0 <= k < all.items().len() implies 0 <= (
            #[trigger] all.items()[k]).loc < bd.size.cells_spec() && bit_set(
                bd.legal_mask(cl),
                all.items()[k].loc as u64,
            ) && all.items()[k].value == spec_move_score(
                self.phase as int,
                *bd,
                cl,
                all.items()[k].loc as int,
            ) by {
                assert(all.items().contains(all.items()[k]));
                assert(all.items().to_multiset().count(all.items()[k]) > 0);
                assert(pre.items().to_multiset().count(all.items()[k]) > 0);
                assert(pre.items().contains(all.items()[k]));
                let k2 = choose|k2: int|
                    0 <= k2 < pre.items().len() && pre.items()[k2] == all.items()[k];
                assert(0 <= pre.items()[k2].loc < cells);
                assert(pre.items()[k2].value == spec_move_score(
                    self.phase as int,
                    *bd,
                    cl,
                    pre.items()[k2].loc as int,
                ));
            }
            lemma_bv_confined_low(all_valid, bd.n());
            assert(all.items().len() == popcnt64(bd.legal_mask(cl)));
            assert forall|j: int|
                0 <= j < bd.size.cells_spec() && #[trigger] bit_set(bd.legal_mask(cl), j as u64)
                    implies exists|k: int|
                0 <= k < all.items().len() && (#[trigger] all.items()[k]).loc == j by {
                let k0 = choose|k0: int|
                    0 <= k0 < pre.items().len() && (#[trigger] pre.items()[k0]).loc == j;
                assert(pre.items().contains(pre.items()[k0]));
                assert(pre.items().to_multiset().count(pre.items()[k0]) > 0);
                assert(all.items().to_multiset().count(pre.items()[k0]) > 0);
                assert(all.items().contains(pre.items()[k0]));
                let k1 = choose|k1: int|
                    0 <= k1 < all.items().len() && all.items()[k1] == pre.items()[k0];
                assert(all.items()[k1].loc == j);
            }
            if all.items().len() == 0 {
                lemma_low_mask_full(bd.n());
                lemma_bv_split_zero(all_valid, low_mask((bd.n() * bd.n()) as u64));
            }
            if bd.legal_mask(cl) == 0 && all.items().len() > 0 {
                let x = all.items()[0];
                lemma_bv_zero(1u64 << (x.loc as u64));
                assert(false);
            }
        }
        all
    }
}

pub const U1: u64 = 1;


/// The side that actually moves at a node: the nominal side to move, or the
/// other side when the nominal side must pass.
pub open spec fn eff_mover(color: Color, bd: BBoard, maxing: bool) -> Color {
    if bd.legal_mask(mover_of(color, maxing)) != 0 {
        mover_of(color, maxing)
    } else {
        mover_of(color, !maxing)
    }
}

/// Whether the node that actually moves is a maximizing node.
pub open spec fn eff_maxing(color: Color, bd: BBoard, maxing: bool) -> bool {
    if bd.legal_mask(mover_of(color, maxing)) != 0 {
        maxing
    } else {
        !maxing
    }
}

/// One side's positional score stays within a fixed band.
pub proof fn lemma_side_score_bound(m: u64, n: u64)
    requires
        n == 6 || n == 8,
    ensures
        -200000 <= side_score(m, n) <= 200000,
{
    if n == 6 {
        lemma_pop_range(m & 0x840000021);
        lemma_pop_range(m & 0x4A1000852);
        lemma_pop_range(m & 0x30086100C);
        lemma_pop_range(m & 0x012000480);
        lemma_pop_range(m & 0x00C492300);
        lemma_pop_range(m & 0x00030C000);
    } else {
        lemma_pop_range(m & 0x8100000000000081);
        lemma_pop_range(m & 0x0042000000004200);
        lemma_pop_range(m & 0x0000240000240000);
        lemma_pop_range(m & 0x0000001818000000);
        lemma_pop_range(m & 0x4281000000008142);
        lemma_pop_range(m & 0x2400810000810024);
        lemma_pop_range(m & 0x1800008181000018);
        lemma_pop_range(m & 0x0024420000422400);
        lemma_pop_range(m & 0x0018004242001800);
        lemma_pop_range(m & 0x0000182424180000);
    }
}

/// The leaf heuristic stays within the evaluation band.
pub proof fn lemma_heur_bound(color: Color, phase: int, bd: BBoard)
    ensures
        -EVAL_CAP <= spec_heuristic(color, phase, bd) <= EVAL_CAP,
{
    lemma_cells_le(bd.size);
    lemma_side_score_bound(bd.black, bd.n());
    lemma_side_score_bound(bd.white, bd.n());
    lemma_pop_range(bd.mask_of(color));
    lemma_pop_range(bd.mask_of(opposite(color)));
}

/// A cell that is legal for `side` is empty.
pub proof fn lemma_legal_bit_empty(bd: BBoard, side: Color, j: u64)
    requires
        bd.wf(),
        bit_set(bd.legal_mask(side), j),
    ensures
        bd.spec_at(j) == Color::Empty,
{
    lemma_legal_moves_empty(bd, side);
    lemma_bv_disjoint_bit(bd.legal_mask(side), bd.occupied(), j);
    lemma_bv_bit_or2(bd.black, bd.white, j);
}

/// The fold `scan_value` really is the best child value: it dominates every
/// legal child, and unless no legal move exists it is attained by one.
pub proof fn lemma_scan_props(
    color: Color,
    phase: int,
    bd: BBoard,
    depth: int,
    maxing: bool,
    i: int,
)
    requires
        0 <= i,
        depth >= 1,
    ensures
        forall|j: int|
            i <= j < bd.size.cells_spec() && #[trigger] bit_set(
                bd.legal_mask(mover_of(color, maxing)),
                j as u64,
            ) ==> if maxing {
                child_value(color, phase, bd, depth, maxing, j) <= scan_value(
                    color,
                    phase,
                    bd,
                    depth,
                    maxing,
                    i,
                )
            } else {
                child_value(color, phase, bd, depth, maxing, j) >= scan_value(
                    color,
                    phase,
                    bd,
                    depth,
                    maxing,
                    i,
                )
            },
        (exists|j: int|
            i <= j < bd.size.cells_spec() && #[trigger] bit_set(
                bd.legal_mask(mover_of(color, maxing)),
                j as u64,
            ) && scan_value(color, phase, bd, depth, maxing, i) == child_value(
                color,
                phase,
                bd,
                depth,
                maxing,
                j,
            )) || scan_value(color, phase, bd, depth, maxing, i) == (if maxing {
            MIN_I32 as int
        } else {
            MAX_I32 as int
        }),
    decreases bd.size.cells_spec() - i,
{
    if i < bd.size.cells_spec() {
        lemma_scan_props(color, phase, bd, depth, maxing, i + 1);
    }
}

/// The minimax value of a well-formed position stays within the evaluation
/// band: it is a maximum or minimum of leaf heuristics.
pub proof fn lemma_minimax_bound(color: Color, phase: int, bd: BBoard, depth: int, maxing: bool)
    requires
        bd.wf(),
    ensures
        -EVAL_CAP <= minimax(color, phase, bd, depth, maxing) <= EVAL_CAP,
    decreases depth, pass_rank(color, bd, maxing), 0int,
{
    lemma_cells_le(bd.size);
    if depth <= 0 || bd.spec_over() || !two_sided(color) {
        lemma_heur_bound(color, phase, bd);
    } else if bd.legal_mask(mover_of(color, maxing)) == 0 {
        lemma_minimax_bound(color, phase, bd, depth, !maxing);
    } else {
        let side = mover_of(color, maxing);
        let lm = bd.legal_mask(side);
        lemma_legal_moves_empty(bd, side);
        lemma_nonzero_has_bit(lm);
        let jb = choose|jb: u64| jb < 64 && bit_set(lm, jb);
        lemma_bv_bit_in_grid(lm, jb, bd.n());
        lemma_legal_bit_empty(bd, side, jb);
        crate::board::lemma_put_occupancy(bd, jb, side);
        lemma_minimax_bound(color, phase, bd.spec_put(jb, side), depth - 1, !maxing);
        lemma_scan_props(color, phase, bd, depth, maxing, 0);
        assert(bit_set(lm, (jb as int) as u64));
        let v = scan_value(color, phase, bd, depth, maxing, 0);
        if !(v == (if maxing { MIN_I32 as int } else { MAX_I32 as int })) {
            let js = choose|js: int|
                0 <= js < bd.size.cells_spec() && #[trigger] bit_set(lm, js as u64) && v
                    == child_value(color, phase, bd, depth, maxing, js);
            lemma_legal_bit_empty(bd, side, js as u64);
            crate::board::lemma_put_occupancy(bd, js as u64, side);
            lemma_minimax_bound(color, phase, bd.spec_put(js as u64, side), depth - 1, !maxing);
        }
    }
}

/// Law: the minimax value depends only on the position, the depth bound, the
/// engine side and the phase; in particular it does not depend on the order
/// in which candidate moves are examined.
pub proof fn lemma_value_order_independent(a1: AI, a2: AI, bd: BBoard, depth: int, maxing: bool)
    requires
        a1.color == a2.color,
        a1.phase == a2.phase,
    ensures
        a1.value_of(bd, depth, maxing) == a2.value_of(bd, depth, maxing),
{
}

/// The board decoded from a board text.
pub open spec fn spec_decode(s: Seq<u8>, size: BoardSize) -> BBoard {
    let p = crate::board::decode_masks(s, size.cells_spec() as nat);
    BBoard { black: p.0, white: p.1, size }
}

impl AI {
    /// Fail-soft alpha-beta minimax. The returned value equals the minimax
    /// value whenever it lies strictly inside the window, and bounds it from
    /// the window side otherwise; the returned cell is a legal move of the
    /// side that actually moves and, inside the window, attains the value.
    pub fn alpha_beta(&self, bd: &BBoard, depth: i32, alpha: i32, beta: i32, max_layer: bool) -> (r:
        Node)
        requires
            self.wf(),
            bd.wf(),
            bd.size == self.size,
            depth >= 0,
            alpha < beta,
        ensures
            alpha < r.value < beta ==> r.value == self.value_of(*bd, depth as int, max_layer),
            r.value <= alpha ==> self.value_of(*bd, depth as int, max_layer) <= r.value,
            r.value >= beta ==> self.value_of(*bd, depth as int, max_layer) >= r.value,
            (depth == 0 || bd.spec_over()) ==> r.loc == -1,
            r.loc != -1 ==> 0 <= r.loc < bd.size.cells_spec() && bit_set(
                bd.legal_mask(eff_mover(self.color, *bd, max_layer)),
                r.loc as u64,
            ),
            (r.loc != -1 && alpha < r.value < beta) ==> child_value(
                self.color,
                self.phase as int,
                *bd,
                depth as int,
                eff_maxing(self.color, *bd, max_layer),
                r.loc as int,
            ) == r.value,
            (alpha < r.value < beta && !(depth == 0 || bd.spec_over())) ==> r.loc != -1,
            -EVAL_CAP <= r.value <= EVAL_CAP,
            (depth == 0 || bd.spec_over()) ==> r.value == spec_heuristic(
                self.color,
                self.phase as int,
                *bd,
            ),
            (depth != 0 && !bd.spec_over()) ==> r.loc != -1,
        decreases depth, pass_rank(self.color, *bd, max_layer),
    {
        proof {
            lemma_cells_le(self.size);
        }
        if depth == 0 || bd.is_over() {
            return Node::new(-1, self.heuristic(bd));
        }
        let ghost ph = self.phase as int;
        let ghost dd = depth as int;
        if max_layer {
            let ai_valid = self.sorted_valid_nodes(bd, self.color);
            if ai_valid.size() == 0 {
                return self.alpha_beta(bd, depth, alpha, beta, false);
            }
            let ghost lm = bd.legal_mask(self.color);
            let ghost v = self.value_of(*bd, dd, true);
            proof {
                lemma_scan_props(self.color, ph, *bd, dd, true, 0);
            }
            let mut max_value: i32 = MIN_I32;
            let mut best_node = Node::new(-1, MIN_I32);
            let mut a: i32 = alpha;
            let mut idx: usize = 0;
            let mut done: bool = false;
            while idx < ai_valid.size()
                invariant
                    self.wf(),
                    bd.wf(),
                    bd.size == self.size,
                    ph == self.phase as int,
                    dd == depth as int,
                    depth >= 1,
                    alpha < beta,
                    idx <= ai_valid.items().len(),
                    lm == bd.legal_mask(self.color),
                    lm != 0,
                    !bd.spec_over(),
                    v == self.value_of(*bd, dd, true),
                    v == scan_value(self.color, ph, *bd, dd, true, 0),
                    forall|k: int|
                        0 <= k < ai_valid.items().len() ==> 0 <= (
                        #[trigger] ai_valid.items()[k]).loc < bd.size.cells_spec() && bit_set(
                            lm,
                            ai_valid.items()[k].loc as u64,
                        ),
                    forall|j: int|
                        0 <= j < bd.size.cells_spec() && #[trigger] bit_set(lm, j as u64)
                            ==> exists|k: int|
                            0 <= k < ai_valid.items().len() && (#[trigger] ai_valid.items()[k]).loc
                                == j,
                    a == if max_value > alpha {
                        max_value
                    } else {
                        alpha
                    },
                    !done ==> a < beta,
                    !done ==> forall|k: int|
                        0 <= k < idx ==> child_value(
                            self.color,
                            ph,
                            *bd,
                            dd,
                            true,
                            (#[trigger] ai_valid.items()[k]).loc as int,
                        ) <= max_value,
                    best_node.loc != -1 ==> 0 <= best_node.loc < bd.size.cells_spec() && bit_set(
                        lm,
                        best_node.loc as u64,
                    ),
                    (!done && max_value > alpha) ==> best_node.loc != -1,
                    idx == 0 ==> !done && max_value == MIN_I32 && best_node.loc == -1,
                    idx > 0 ==> -EVAL_CAP <= max_value <= EVAL_CAP && best_node.loc != -1,
                    (!done && best_node.loc != -1 && max_value > alpha) ==> child_value(
                        self.color,
                        ph,
                        *bd,
                        dd,
                        true,
                        best_node.loc as int,
                    ) == max_value,
                    done ==> max_value >= beta && best_node.loc != -1 && child_value(
                        self.color,
                        ph,
                        *bd,
                        dd,
                        true,
                        best_node.loc as int,
                    ) >= max_value,
                decreases ai_valid.items().len() - idx,
            {
                if !done {
                    let n = ai_valid.get(idx);
                    proof {
                        lemma_legal_bit_empty(*bd, self.color, n.loc as u64);
                    }
                    let mut tmp = bd.copy();
                    tmp.put(n.loc, self.color);
                    let ev = self.alpha_beta(&tmp, depth - 1, a, beta, false).value;
                    proof {
                        assert(self.value_of(tmp, dd - 1, false) == child_value(
                            self.color,
                            ph,
                            *bd,
                            dd,
                            true,
                            n.loc as int,
                        ));
                    }
                    if ev > max_value {
                        max_value = ev;
                        best_node = n;
                    }
                    if max_value > a {
                        a = max_value;
                    }
                    if beta <= a {
                        done = true;
                    }
                }
                idx += 1;
            }
            proof {
                if !done {
                    assert forall|j: int|
                        0 <= j < bd.size.cells_spec() && #[trigger] bit_set(lm, j as u64) implies
                        child_value(self.color, ph, *bd, dd, true, j) <= max_value as int by {
                        let k0 = choose|k0: int|
                            0 <= k0 < ai_valid.items().len() && (
                            #[trigger] ai_valid.items()[k0]).loc == j;
                        assert(child_value(self.color, ph, *bd, dd, true, ai_valid.items()[k0].loc
                            as int) <= max_value);
                    }
                    if v != MIN_I32 as int {
                        let js = choose|js: int|
                            0 <= js < bd.size.cells_spec() && #[trigger] bit_set(lm, js as u64) && v
                                == child_value(self.color, ph, *bd, dd, true, js);
                        assert(v <= max_value as int);
                    }
                }
            }
            return Node::new(best_node.loc, max_value);
        } else {
            let op_valid = self.sorted_valid_nodes(bd, self.opp);
            if op_valid.size() == 0 {
                return self.alpha_beta(bd, depth, alpha, beta, true);
            }
            let ghost lm = bd.legal_mask(self.opp);
            let ghost v = self.value_of(*bd, dd, false);
            proof {
                lemma_scan_props(self.color, ph, *bd, dd, false, 0);
            }
            let mut min_value: i32 = MAX_I32;
            let mut best_node = Node::new(-1, MAX_I32);
            let mut b: i32 = beta;
            let mut idx: usize = 0;
            let mut done: bool = false;
            while idx < op_valid.size()
                invariant
                    self.wf(),
                    bd.wf(),
                    bd.size == self.size,
                    ph == self.phase as int,
                    dd == depth as int,
                    depth >= 1,
                    alpha < beta,
                    idx <= op_valid.items().len(),
                    lm == bd.legal_mask(self.opp),
                    lm != 0,
                    !bd.spec_over(),
                    v == self.value_of(*bd, dd, false),
                    v == scan_value(self.color, ph, *bd, dd, false, 0),
                    forall|k: int|
                        0 <= k < op_valid.items().len() ==> 0 <= (
                        #[trigger] op_valid.items()[k]).loc < bd.size.cells_spec() && bit_set(
                            lm,
                            op_valid.items()[k].loc as u64,
                        ),
                    forall|j: int|
                        0 <= j < bd.size.cells_spec() && #[trigger] bit_set(lm, j as u64)
                            ==> exists|k: int|
                            0 <= k < op_valid.items().len() && (#[trigger] op_valid.items()[k]).loc
                                == j,
                    b == if min_value < beta {
                        min_value
                    } else {
                        beta
                    },
                    !done ==> alpha < b,
                    !done ==> forall|k: int|
                        0 <= k < idx ==> child_value(
                            self.color,
                            ph,
                            *bd,
                            dd,
                            false,
                            (#[trigger] op_valid.items()[k]).loc as int,
                        ) >= min_value,
                    best_node.loc != -1 ==> 0 <= best_node.loc < bd.size.cells_spec() && bit_set(
                        lm,
                        best_node.loc as u64,
                    ),
                    (!done && min_value < beta) ==> best_node.loc != -1,
                    idx == 0 ==> !done && min_value == MAX_I32 && best_node.loc == -1,
                    idx > 0 ==> -EVAL_CAP <= min_value <= EVAL_CAP && best_node.loc != -1,
                    (!done && best_node.loc != -1 && min_value < beta) ==> child_value(
                        self.color,
                        ph,
                        *bd,
                        dd,
                        false,
                        best_node.loc as int,
                    ) == min_value,
                    done ==> min_value <= alpha && best_node.loc != -1 && child_value(
                        self.color,
                        ph,
                        *bd,
                        dd,
                        false,
                        best_node.loc as int,
                    ) <= min_value,
                decreases op_valid.items().len() - idx,
            {
                if !done {
                    let n = op_valid.get(idx);
                    proof {
                        lemma_legal_bit_empty(*bd, self.opp, n.loc as u64);
                    }
                    let mut tmp = bd.copy();
                    tmp.put(n.loc, self.opp);
                    let ev = self.alpha_beta(&tmp, depth - 1, alpha, b, true).value;
                    proof {
                        assert(self.value_of(tmp, dd - 1, true) == child_value(
                            self.color,
                            ph,
                            *bd,
                            dd,
                            false,
                            n.loc as int,
                        ));
                    }
                    if ev < min_value {
                        min_value = ev;
                        best_node = n;
                    }
                    if min_value < b {
                        b = min_value;
                    }
                    if b <= alpha {
                        done = true;
                    }
                }
                idx += 1;
            }
            proof {
                if !done {
                    assert forall|j: int|
                        0 <= j < bd.size.cells_spec() && #[trigger] bit_set(lm, j as u64) implies
                        child_value(self.color, ph, *bd, dd, false, j) >= min_value as int by {
                        let k0 = choose|k0: int|
                            0 <= k0 < op_valid.items().len() && (
                            #[trigger] op_valid.items()[k0]).loc == j;
                        assert(child_value(self.color, ph, *bd, dd, false, op_valid.items()[k0].loc
                            as int) >= min_value);
                    }
                    if v != MAX_I32 as int {
                        let js = choose|js: int|
                            0 <= js < bd.size.cells_spec() && #[trigger] bit_set(lm, js as u64) && v
                                == child_value(self.color, ph, *bd, dd, false, js);
                        assert(v >= min_value as int);
                    }
                }
            }
            return Node::new(best_node.loc, min_value);
        }
    }

    /// Run the search over the full window; the result value is exactly the
    /// minimax value of the position.
    pub fn alpha_beta_helper(&self, bd: &BBoard, depth: i32) -> (r: Node)
        requires
            self.wf(),
            bd.wf(),
            bd.size == self.size,
            depth >= 0,
        ensures
            r.value == self.value_of(*bd, depth as int, true),
            (depth == 0 || bd.spec_over()) ==> r.loc == -1,
            !(depth == 0 || bd.spec_over()) ==> r.loc != -1 && 0 <= r.loc
                < bd.size.cells_spec() && bit_set(
                bd.legal_mask(eff_mover(self.color, *bd, true)),
                r.loc as u64,
            ) && child_value(
                self.color,
                self.phase as int,
                *bd,
                depth as int,
                eff_maxing(self.color, *bd, true),
                r.loc as int,
            ) == r.value,
    {
        proof {
            lemma_minimax_bound(self.color, self.phase as int, *bd, depth as int, true);
        }
        self.alpha_beta(bd, depth, MIN_I32, MAX_I32, true)
    }

    /// Decode a position, derive phase and depth, and return the chosen move
    /// encoded as a row letter and a column letter.
    pub fn next_move(&mut self, input: &[u8]) -> (r: String)
        requires
            old(self).wf(),
            input@.len() >= old(self).size.cells_spec(),
            forall|k: int|
                0 <= k < old(self).size.cells_spec() ==> crate::board::valid_board_byte(
                    #[trigger] input@[k],
                ),
            !spec_decode(input@, old(self).size).spec_over(),
        ensures
            final(self).color == old(self).color,
            final(self).opp == old(self).opp,
            final(self).size == old(self).size,
            final(self).wf(),
            final(self).phase == spec_phase(spec_decode(input@, old(self).size)),
            final(self).depth == if final(self).phase == 1 {
                phase1_depth(old(self).size.nv())
            } else {
                MAX_I32 as int
            },
            exists|loc: int|
                {
                    &&& r@ == #[trigger] move_chars(loc, old(self).size.nv() as int)
                    &&& 0 <= loc < old(self).size.cells_spec()
                    &&& bit_set(
                        spec_decode(input@, old(self).size).legal_mask(
                            eff_mover(old(self).color, spec_decode(input@, old(self).size), true),
                        ),
                        loc as u64,
                    )
                    &&& child_value(
                        old(self).color,
                        final(self).phase as int,
                        spec_decode(input@, old(self).size),
                        final(self).depth as int,
                        eff_maxing(old(self).color, spec_decode(input@, old(self).size), true),
                        loc,
                    ) == minimax(
                        old(self).color,
                        final(self).phase as int,
                        spec_decode(input@, old(self).size),
                        final(self).depth as int,
                        true,
                    )
                },
    {
        let bd = BBoard::new(input, self.size);
        proof {
            assert(bd == spec_decode(input@, old(self).size));
        }
        self.set_phase(&bd);
        self.set_depth();
        let best = self.alpha_beta_helper(&bd, self.depth);
        let r = best.to_string(self.size);
        proof {
            assert(r@ == move_chars(best.loc as int, self.size.nv() as int));
        }
        r
    }
}


} // verus!
