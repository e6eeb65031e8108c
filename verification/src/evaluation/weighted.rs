use vstd::prelude::*;
use crate::board::{Board, occ_grid};
use crate::evaluation::features::{hgt, lemma_board_heights, max_height, highest_point, bumpiness, bumpiness_spec, abs, covered_cells, covered_spec, top_cover};
use crate::evaluation::holes::{cavities_and_overhangs, region_counts};
use crate::evaluation::sum_range;
use crate::evaluation::standard::{small, pos};
use crate::piece::{FallingPiece, LockResult, Piece, PieceState, PlacementKind, RotationState, TspinStatus};

verus! {

/// The leftmost lowest column among the first `n` columns.
pub open spec fn low_column(g: Seq<Seq<bool>>, n: int) -> int
    decreases n,
{
    if n <= 1 {
        0
    } else if hgt(g, n - 1) < hgt(g, low_column(g, n - 1)) {
        n - 1
    } else {
        low_column(g, n - 1)
    }
}

/// The leftmost lowest column among the first `n` columns is one of them.
pub proof fn lemma_low_column_range(g: Seq<Seq<bool>>, n: int)
    requires
        n >= 1,
    ensures
        0 <= low_column(g, n) < n,
    decreases n,
{
    if n > 1 {
        lemma_low_column_range(g, n - 1);
    }
}

/// The first column from `x` on, other than `well`, whose cell in row `y` is empty; `10` when
/// there is none.
pub open spec fn gap_from(g: Seq<Seq<bool>>, well: int, y: int, x: int) -> int
    decreases 10 - x,
{
    if x >= 10 {
        10
    } else if x != well && !occ_grid(g, x, y) {
        x
    } else {
        gap_from(g, well, y, x + 1)
    }
}

/// The cells scanned from row `y` up to row 19, row by row from the left, before the first empty
/// cell outside the well.
pub open spec fn scanned_depth(g: Seq<Seq<bool>>, well: int, y: int) -> int
    decreases 20 - y,
{
    if y >= 20 {
        0
    } else {
        let gap = gap_from(g, well, y, 0);
        if gap == 10 {
            10 + scanned_depth(g, well, y + 1)
        } else {
            gap
        }
    }
}

/// A T piece in orientation `r` at `(x, y)`.
pub open spec fn t_at(r: RotationState, x: int, y: int) -> FallingPiece {
    FallingPiece {
        kind: PieceState(Piece::T, r),
        x: x as i32,
        y: y as i32,
        tspin: TspinStatus::NoSpin,
    }
}

/// Some cell of `p` is filled or off the playfield.
pub open spec fn blocked(g: Seq<Seq<bool>>, p: FallingPiece) -> bool {
    exists|i: int| 0 <= i < 4 && #[trigger] occ_grid(g, p.cell(i).0, p.cell(i).1)
}

/// Every cell of `p` is at or above the top of its column.
pub open spec fn over_stack(g: Seq<Seq<bool>>, p: FallingPiece) -> bool {
    forall|i: int| 0 <= i < 4 ==> #[trigger] p.cell(i).1 >= hgt(g, p.cell(i).0)
}

/// A T-slot whose center is `(x, y)`: both T orientations fit there, the two cells below its
/// sides are filled, and one of the orientations comes from above with the overhang on its
/// open side.
pub open spec fn tslot_at(g: Seq<Seq<bool>>, x: int, y: int) -> bool {
    let l = t_at(RotationState::West, x, y);
    let r = t_at(RotationState::East, x, y);
    &&& !blocked(g, l)
    &&& !blocked(g, r)
    &&& occ_grid(g, x - 1, y - 1)
    &&& occ_grid(g, x + 1, y - 1)
    &&& (over_stack(g, l) && occ_grid(g, x + 1, y + 1) || over_stack(g, r) && occ_grid(
        g,
        x - 1,
        y + 1,
    ))
}

/// A T is coming soon: in the next six pieces of the queue, or in hold.
pub open spec fn t_soon(queue: Seq<Piece>, hold: Option<Piece>) -> bool {
    (exists|k: int| 0 <= k < queue.len() && k < 6 && #[trigger] queue[k] == Piece::T) || hold
        == Some(Piece::T)
}

/// The leftmost lowest column.
fn low_well(board: &Board) -> (well: usize)
    requires
        board.wf(),
    ensures
        well as int == low_column(board.grid(), 10),
        well < 10,
{
    proof {
        lemma_board_heights(board);
    }
    let heights = board.column_heights();
    let mut well: usize = 0;
    let mut x: usize = 1;
    while x < 10
        invariant
            1 <= x <= 10,
            forall|c: int| 0 <= c < 10 ==> #[trigger] heights@[c] as int == hgt(board.grid(), c),
            well as int == low_column(board.grid(), x as int),
            well < x,
        decreases 10 - x,
    {
        if heights[x] < heights[well] {
            well = x;
        }
        x = x + 1;
    }
    well
}

/// The cells scanned from the top of the well up to row 19, row by row from the left, before
/// the first empty cell outside the well.
fn well_cells(board: &Board, well: usize) -> (depth: i32)
    requires
        board.wf(),
        well < 10,
    ensures
        depth as int == scanned_depth(board.grid(), well as int, hgt(board.grid(), well as int)),
        0 <= depth <= 200,
{
    proof {
        lemma_board_heights(board);
    }
    let mut depth: i32 = 0;
    let mut y: i32 = board.column_heights()[well];
    let ghost y0 = y as int;
    while y < 20
        invariant
            board.inv(),
            well < 10,
            0 <= y0 <= 40,
            y0 == hgt(board.grid(), well as int),
            y0 <= y <= 40,
            y0 < 20 ==> y <= 20,
            0 <= depth <= 10 * (y - y0),
            scanned_depth(board.grid(), well as int, y0) == depth + scanned_depth(
                board.grid(),
                well as int,
                y as int,
            ),
        decreases 20 - y,
    {
        let mut x: i32 = 0;
        while x < 10
            invariant
                board.inv(),
                0 <= x <= 10,
                well < 10,
                0 <= y0 <= y < 20,
                y0 == hgt(board.grid(), well as int),
                0 <= depth <= 10 * (y - y0),
                scanned_depth(board.grid(), well as int, y0) == depth + scanned_depth(
                    board.grid(),
                    well as int,
                    y as int,
                ),
                gap_from(board.grid(), well as int, y as int, 0) == gap_from(
                    board.grid(),
                    well as int,
                    y as int,
                    x as int,
                ),
            decreases 10 - x,
        {
            if x as usize != well && !board.occupied(x, y) {
                let d = depth + x;
                return d;
            }
            x = x + 1;
        }
        depth = depth + 10;
        y = y + 1;
    }
    depth
}


/// Whether there is a T-slot worth keeping: a T comes within the next six pieces or is held,
/// and some T-slot has its center in columns `1..9` and rows `1..20`.
fn tslot(board: &Board) -> (b: bool)
    requires
        board.wf(),
    ensures
        b == (t_soon(board.queue(), board.hold_of()) && exists|x: int, y: int|
            1 <= x < 9 && 1 <= y < 20 && #[trigger] tslot_at(board.grid(), x, y)),
{
    proof {
        lemma_board_heights(board);
    }
    let queue = board.next_queue();
    let mut soon = false;
    let mut k: usize = 0;
    while k < queue.len() && k < 6
        invariant
            queue@ == board.queue(),
            k <= queue@.len(),
            k <= 6,
            soon == (exists|j: int| 0 <= j < k && #[trigger] queue@[j] == Piece::T),
        decreases queue@.len() - k,
    {
        if queue[k] == Piece::T {
            soon = true;
        }
        k = k + 1;
    }
    proof {
        if soon {
            let j = choose|j: int| 0 <= j < k && #[trigger] queue@[j] == Piece::T;
            assert(0 <= j < queue@.len() && j < 6 && queue@[j] == Piece::T);
        } else {
            assert forall|j: int| 0 <= j < queue@.len() && j < 6 implies #[trigger] queue@[j]
                != Piece::T by {
                assert(j < k);
            }
        }
    }
    assert(soon == (exists|j: int|
        0 <= j < queue@.len() && j < 6 && #[trigger] queue@[j] == Piece::T));
    if !soon {
        match board.held_piece() {
            Some(Piece::T) => {},
            _ => {
                return false;
            },
        }
    }
    let mut y: i32 = 1;
    while y < 20
        invariant
            board.wf(),
            t_soon(board.queue(), board.hold_of()),
            1 <= y <= 20,
            forall|xx: int, yy: int| 1 <= xx < 9 && 1 <= yy < y ==> !#[trigger] tslot_at(board.grid(), xx, yy),
        decreases 20 - y,
    {
        let mut x: i32 = 1;
        while x < 9
            invariant
                board.wf(),
                t_soon(board.queue(), board.hold_of()),
                1 <= y < 20,
                1 <= x <= 9,
                forall|xx: int, yy: int| 1 <= xx < 9 && 1 <= yy < y ==> !#[trigger] tslot_at(board.grid(), xx, yy),
                forall|xx: int| 1 <= xx < x ==> !#[trigger] tslot_at(board.grid(), xx, y as int),
            decreases 9 - x,
        {
            let left_t = FallingPiece {
                kind: PieceState(Piece::T, RotationState::West),
                tspin: TspinStatus::NoSpin,
                x,
                y,
            };
            let right_t = FallingPiece {
                kind: PieceState(Piece::T, RotationState::East),
                tspin: TspinStatus::NoSpin,
                x,
                y,
            };
            assert(left_t == t_at(RotationState::West, x as int, y as int));
            assert(right_t == t_at(RotationState::East, x as int, y as int));
            if board.obstructed(&left_t) || board.obstructed(&right_t) {
            } else if !board.occupied(x - 1, y - 1) || !board.occupied(x + 1, y - 1) {
            } else {
                proof {
                    assert forall|i: int| 0 <= i < 4 implies 0 <= #[trigger] left_t.cell(i).0 < 10 by {
                        assert(!board.occ(left_t.cell(i).0, left_t.cell(i).1));
                    }
                    assert forall|i: int| 0 <= i < 4 implies 0 <= #[trigger] right_t.cell(i).0 < 10 by {
                        assert(!board.occ(right_t.cell(i).0, right_t.cell(i).1));
                    }
                }
                if board.above_stack(&left_t) && board.occupied(x + 1, y + 1) || board.above_stack(
                    &right_t,
                ) && board.occupied(x - 1, y + 1) {
                    assert(tslot_at(board.grid(), x as int, y as int));
                    return true;
                }
            }
            assert(!tslot_at(board.grid(), x as int, y as int));
            x = x + 1;
        }
        y = y + 1;
    }
    false
}

/// The evaluation of a placement: what it earned, and what the board it leaves is worth.
#[derive(Copy, Clone, Debug, Hash, Eq, PartialEq, Structural)]
pub struct Evaluation {
    pub accumulated: i32,
    pub transient: i32,
}

/// The weights of the features of a board.
#[derive(Copy, Clone, Debug, Hash, Eq, PartialEq, Default, Structural)]
pub struct BoardWeights {
    pub back_to_back: i32,
    pub bumpiness: i32,
    pub bumpiness_sq: i32,
    pub height: i32,
    pub top_half: i32,
    pub top_quarter: i32,
    pub cavity_cells: i32,
    pub cavity_cells_sq: i32,
    pub overhang_cells: i32,
    pub overhang_cells_sq: i32,
    pub covered_cells: i32,
    pub covered_cells_sq: i32,
    pub tslot_present: i32,
    pub well_depth: i32,
    pub max_well_depth: i32,
}

/// The weights of what a placement achieves.
#[derive(Copy, Clone, Debug, Hash, Eq, PartialEq, Default)]
pub struct PlacementWeights {
    pub b2b_clear: i32,
    pub clear1: i32,
    pub clear2: i32,
    pub clear3: i32,
    pub clear4: i32,
    pub tspin1: i32,
    pub tspin2: i32,
    pub tspin3: i32,
    pub mini_tspin1: i32,
    pub mini_tspin2: i32,
    pub perfect_clear: i32,
    pub combo_table: [i32; 12],
    pub soft_drop: i32,
}

impl BoardWeights {
    /// Every weight is small enough for the evaluation not to overflow `i32`.
    pub open spec fn in_range(&self) -> bool {
        &&& small(self.back_to_back) && small(self.bumpiness) && small(self.bumpiness_sq)
        &&& small(self.height) && small(self.top_half) && small(self.top_quarter)
        &&& small(self.cavity_cells) && small(self.cavity_cells_sq) && small(self.overhang_cells)
        &&& small(self.overhang_cells_sq) && small(self.covered_cells) && small(
            self.covered_cells_sq,
        )
        &&& small(self.tslot_present) && small(self.well_depth) && small(self.max_well_depth)
    }

    /// What the height of the stack and back-to-back are worth.
    pub open spec fn height_value(&self, board: &Board) -> int {
        let hp = max_height(board.grid(), 10);
        (if board.b2b_of() {
            self.back_to_back as int
        } else {
            0
        }) + self.height * hp + self.top_half * pos(hp - 10) + self.top_quarter * pos(hp - 15)
    }

    /// What the well is worth: the cells scanned above it, capped.
    pub open spec fn well_value(&self, g: Seq<Seq<bool>>) -> int {
        let well = low_column(g, 10);
        let raw = scanned_depth(g, well, hgt(g, well));
        let depth = if raw < self.max_well_depth {
            raw
        } else {
            self.max_well_depth as int
        };
        self.well_depth * depth
    }

    /// What the bumpiness outside the well is worth.
    pub open spec fn bumpiness_value(&self, g: Seq<Seq<bool>>) -> int {
        let bump = bumpiness_spec(g, low_column(g, 10));
        bump.0 * self.bumpiness + bump.1 * self.bumpiness_sq
    }

    /// What the cavities and overhangs are worth.
    pub open spec fn holes_value(&self, g: Seq<Seq<bool>>) -> int {
        let holes = region_counts(g);
        self.cavity_cells * holes.0 + self.cavity_cells_sq * holes.0 * holes.0
            + self.overhang_cells * holes.1 + self.overhang_cells_sq * holes.1 * holes.1
    }

    /// What the cover of the topmost holes is worth.
    pub open spec fn covered_value(&self, g: Seq<Seq<bool>>) -> int {
        let cov = covered_spec(g);
        self.covered_cells * cov.0 + self.covered_cells_sq * cov.1
    }

    /// What a T-slot is worth.
    pub open spec fn tslot_value(&self, board: &Board) -> int {
        if t_soon(board.queue(), board.hold_of()) && exists|x: int, y: int|
            1 <= x < 9 && 1 <= y < 20 && #[trigger] tslot_at(board.grid(), x, y) {
            self.tslot_present as int
        } else {
            0
        }
    }

    /// What the features of a board are worth.
    pub open spec fn value(&self, board: &Board) -> int {
        let g = board.grid();
        self.height_value(board) + self.well_value(g) + self.bumpiness_value(g)
            + self.holes_value(g) + self.covered_value(g) + self.tslot_value(board)
    }

    /// What the height of the stack and back-to-back are worth.
    pub(crate) fn height_score(&self, board: &Board) -> (v: i32)
        requires
            self.in_range(),
            board.wf(),
        ensures
            v as int == self.height_value(board),
            -4096 * 96 <= v <= 4096 * 96,
    {
        let hp = highest_point(board);
        let half: i32 = if hp - 10 > 0 {
            hp - 10
        } else {
            0
        };
        let quarter: i32 = if hp - 15 > 0 {
            hp - 15
        } else {
            0
        };
        proof {
            crate::evaluation::standard::lemma_mul_bound(self.height as int, hp as int, 40);
            crate::evaluation::standard::lemma_mul_bound(self.top_half as int, half as int, 30);
            crate::evaluation::standard::lemma_mul_bound(self.top_quarter as int, quarter as int, 25);
        }
        let mut v: i32 = 0;
        if board.has_back_to_back_active() {
            v = self.back_to_back;
        }
        v = v + self.height * hp;
        v = v + self.top_half * half;
        v = v + self.top_quarter * quarter;
        v
    }

    /// What the well is worth; also gives the well.
    pub(crate) fn well_score(&self, board: &Board) -> (r: (i32, usize))
        requires
            self.in_range(),
            board.wf(),
        ensures
            r.0 as int == self.well_value(board.grid()),
            r.1 as int == low_column(board.grid(), 10),
            -4096 * 4096 <= r.0 <= 4096 * 4096,
    {
        let well = low_well(board);
        let raw = well_cells(board, well);
        let depth = if raw < self.max_well_depth {
            raw
        } else {
            self.max_well_depth
        };
        proof {
            crate::evaluation::standard::lemma_mul_bound(self.well_depth as int, depth as int, 4096);
        }
        (self.well_depth * depth, well)
    }

    /// What the bumpiness outside the well is worth; skipped when both its weights are zero.
    pub(crate) fn bumpiness_score(&self, board: &Board, well: usize) -> (v: i32)
        requires
            self.in_range(),
            board.wf(),
            well as int == low_column(board.grid(), 10),
        ensures
            v as int == self.bumpiness_value(board.grid()),
            -67_174_400 <= v <= 67_174_400,
    {
        proof {
            lemma_low_column_range(board.grid(), 10);
        }
        let bw = self.bumpiness;
        let bsw = self.bumpiness_sq;
        assert(((bw | bsw) != 0) == (bw != 0 || bsw != 0)) by (bit_vector);
        if (self.bumpiness | self.bumpiness_sq) != 0 {
            let (bump, bump_sq) = bumpiness(board, well);
            proof {
                crate::evaluation::standard::lemma_mul_bound(self.bumpiness as int, bump as int, 400);
                crate::evaluation::standard::lemma_mul_bound(
                    self.bumpiness_sq as int,
                    bump_sq as int,
                    16000,
                );
            }
            bump * self.bumpiness + bump_sq * self.bumpiness_sq
        } else {
            let ghost bs = bumpiness_spec(board.grid(), well as int);
            assert(bs.0 * bw == 0 && bs.1 * bsw == 0) by (nonlinear_arith)
                requires
                    bw == 0,
                    bsw == 0,
            ;
            0
        }
    }

    /// What the cavities and overhangs are worth; skipped when all four weights are zero.
    pub(crate) fn holes_score(&self, board: &Board) -> (v: i32)
        requires
            self.in_range(),
            board.wf(),
        ensures
            v as int == self.holes_value(board.grid()),
            -1_313_996_800 <= v <= 1_313_996_800,
    {
        let cw = self.cavity_cells;
        let csw = self.cavity_cells_sq;
        let ow = self.overhang_cells;
        let osw = self.overhang_cells_sq;
        assert(((cw | csw | ow | osw) != 0) == (cw != 0 || csw != 0 || ow != 0 || osw != 0))
            by (bit_vector);
        if (self.cavity_cells | self.cavity_cells_sq | self.overhang_cells
            | self.overhang_cells_sq) != 0 {
            let (cavities, overhangs) = cavities_and_overhangs(board);
            proof {
                crate::evaluation::standard::lemma_mul_bound(self.cavity_cells as int, cavities as int, 400);
                crate::evaluation::standard::lemma_mul_bound(self.cavity_cells_sq as int, cavities as int, 400);
                crate::evaluation::standard::lemma_mul_bound(self.overhang_cells as int, overhangs as int, 400);
                crate::evaluation::standard::lemma_mul_bound(
                    self.overhang_cells_sq as int,
                    overhangs as int,
                    400,
                );
                assert(-655_360_000 <= self.cavity_cells_sq * cavities * cavities <= 655_360_000)
                    by (nonlinear_arith)
                    requires
                        -1_638_400 <= self.cavity_cells_sq * cavities <= 1_638_400,
                        0 <= cavities <= 400,
                ;
                assert(-655_360_000 <= self.overhang_cells_sq * overhangs * overhangs
                    <= 655_360_000) by (nonlinear_arith)
                    requires
                        -1_638_400 <= self.overhang_cells_sq * overhangs <= 1_638_400,
                        0 <= overhangs <= 400,
                ;
            }
            let mut v: i32 = self.cavity_cells * cavities;
            v = v + self.cavity_cells_sq * cavities * cavities;
            v = v + self.overhang_cells * overhangs;
            v = v + self.overhang_cells_sq * overhangs * overhangs;
            v
        } else {
            let ghost h = region_counts(board.grid());
            assert(cw * h.0 == 0 && csw * h.0 * h.0 == 0 && ow * h.1 == 0 && osw * h.1 * h.1 == 0)
                by (nonlinear_arith)
                requires
                    cw == 0,
                    csw == 0,
                    ow == 0,
                    osw == 0,
            ;
            0
        }
    }

    /// What the cover of the topmost holes is worth; skipped when both its weights are zero.
    pub(crate) fn covered_score(&self, board: &Board) -> (v: i32)
        requires
            self.in_range(),
            board.wf(),
        ensures
            v as int == self.covered_value(board.grid()),
            -67_174_400 <= v <= 67_174_400,
    {
        let kw = self.covered_cells;
        let ksw = self.covered_cells_sq;
        assert(((kw | ksw) != 0) == (kw != 0 || ksw != 0)) by (bit_vector);
        if (self.covered_cells | self.covered_cells_sq) != 0 {
            let (covered, covered_sq) = covered_cells(board);
            proof {
                crate::evaluation::standard::lemma_mul_bound(self.covered_cells as int, covered as int, 400);
                crate::evaluation::standard::lemma_mul_bound(
                    self.covered_cells_sq as int,
                    covered_sq as int,
                    16000,
                );
            }
            self.covered_cells * covered + self.covered_cells_sq * covered_sq
        } else {
            let ghost c = covered_spec(board.grid());
            assert(kw * c.0 == 0 && ksw * c.1 == 0) by (nonlinear_arith)
                requires
                    kw == 0,
                    ksw == 0,
            ;
            0
        }
    }
}

impl PlacementWeights {
    /// Every weight is small enough for the evaluation not to overflow `i32`.
    pub open spec fn in_range(&self) -> bool {
        &&& small(self.b2b_clear) && small(self.clear1) && small(self.clear2) && small(self.clear3)
        &&& small(self.clear4) && small(self.tspin1) && small(self.tspin2) && small(self.tspin3)
        &&& small(self.mini_tspin1) && small(self.mini_tspin2) && small(self.perfect_clear)
        &&& small(self.soft_drop)
        &&& forall|i: int| 0 <= i < 12 ==> small(#[trigger] self.combo_table@[i])
    }

    /// The weight of a placement kind.
    pub open spec fn clear_weight(&self, kind: PlacementKind) -> int {
        match kind {
            PlacementKind::Clear1 => self.clear1 as int,
            PlacementKind::Clear2 => self.clear2 as int,
            PlacementKind::Clear3 => self.clear3 as int,
            PlacementKind::Clear4 => self.clear4 as int,
            PlacementKind::Tspin1 => self.tspin1 as int,
            PlacementKind::Tspin2 => self.tspin2 as int,
            PlacementKind::Tspin3 => self.tspin3 as int,
            PlacementKind::MiniTspin1 => self.mini_tspin1 as int,
            PlacementKind::MiniTspin2 => self.mini_tspin2 as int,
            _ => 0,
        }
    }

    /// What a placement earns: a perfect clear, or else back-to-back, combo and the kind of
    /// clear; and the soft drop it took, if any.
    pub open spec fn value(&self, lock: LockResult, soft_dropped: bool) -> int {
        (if lock.perfect_clear {
            self.perfect_clear as int
        } else {
            (if lock.b2b {
                self.b2b_clear as int
            } else {
                0
            }) + (match lock.combo {
                Some(c) => self.combo_table@[if c < 11 {
                    c as int
                } else {
                    11
                }] as int,
                None => 0,
            }) + self.clear_weight(lock.placement_kind)
        }) + (if soft_dropped {
            self.soft_drop as int
        } else {
            0
        })
    }

    /// What a placement earns, as `value` describes.
    pub(crate) fn placement_value(&self, lock: &LockResult, soft_dropped: bool) -> (v: i32)
        requires
            self.in_range(),
        ensures
            v as int == self.value(*lock, soft_dropped),
            -5 * 4096 <= v <= 5 * 4096,
    {
        let mut acc_eval: i32 = 0;
        if lock.perfect_clear {
            acc_eval = self.perfect_clear;
        } else {
            if lock.b2b {
                acc_eval = acc_eval + self.b2b_clear;
            }
            match lock.combo {
                Some(combo) => {
                    let c: usize = if combo < 11 {
                        combo as usize
                    } else {
                        11
                    };
                    assert(small(self.combo_table@[c as int]));
                    acc_eval = acc_eval + self.combo_table[c];
                },
                None => {},
            }
            match lock.placement_kind {
                PlacementKind::Clear1 => {
                    acc_eval = acc_eval + self.clear1;
                },
                PlacementKind::Clear2 => {
                    acc_eval = acc_eval + self.clear2;
                },
                PlacementKind::Clear3 => {
                    acc_eval = acc_eval + self.clear3;
                },
                PlacementKind::Clear4 => {
                    acc_eval = acc_eval + self.clear4;
                },
                PlacementKind::Tspin1 => {
                    acc_eval = acc_eval + self.tspin1;
                },
                PlacementKind::Tspin2 => {
                    acc_eval = acc_eval + self.tspin2;
                },
                PlacementKind::Tspin3 => {
                    acc_eval = acc_eval + self.tspin3;
                },
                PlacementKind::MiniTspin1 => {
                    acc_eval = acc_eval + self.mini_tspin1;
                },
                PlacementKind::MiniTspin2 => {
                    acc_eval = acc_eval + self.mini_tspin2;
                },
                _ => {},
            }
        }
        if soft_dropped {
            acc_eval = acc_eval + self.soft_drop;
        }
        acc_eval
    }
}

/// Evaluates a placement: what it earned (`PlacementWeights::value`) and what the board it
/// leaves is worth (`BoardWeights::value`). The weights are small enough for the sums to stay
/// within `i32`.
pub fn evaluate(
    lock: &LockResult,
    board: &Board,
    board_weights: &BoardWeights,
    placement_weights: &PlacementWeights,
    soft_dropped: bool,
) -> (e: Evaluation)
    requires
        board.wf(),
        board_weights.in_range(),
        placement_weights.in_range(),
    ensures
        e.accumulated as int == placement_weights.value(*lock, soft_dropped),
        e.transient as int == board_weights.value(board),
{
    let acc_eval = placement_weights.placement_value(lock, soft_dropped);
    let h = board_weights.height_score(board);
    let (w, well) = board_weights.well_score(board);
    let b = board_weights.bumpiness_score(board, well);
    let c = board_weights.holes_score(board);
    let k = board_weights.covered_score(board);
    let t: i32 = if tslot(board) {
        board_weights.tslot_present
    } else {
        0
    };
    let transient_eval = h + w + b + c + k + t;
    Evaluation { accumulated: acc_eval, transient: transient_eval }
}

} // verus!
