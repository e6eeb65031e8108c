use vstd::prelude::*;
use crate::board::{Board, occ_grid};
use crate::evaluation::features::{hgt, lemma_board_heights};
use crate::evaluation::standard::small;
use crate::evaluation::weighted::{tslot_at, t_at, BoardWeights, Evaluation, PlacementWeights};
use crate::piece::{
    FallingPiece, LockResult, Piece, PieceState, RotationState, TspinStatus, combo_garbage,
    combo_garbage_spec,
};

verus! {

/// Every cell of row `cy` outside the three columns centered on `x` is filled.
pub open spec fn outside_full(g: Seq<Seq<bool>>, x: int, cy: int) -> bool {
    forall|rx: int| 0 <= rx < 10 && (rx < x - 1 || rx > x + 1) ==> #[trigger] occ_grid(g, rx, cy)
}

/// `1` when `c` holds, `0` otherwise.
pub open spec fn one_if(c: bool) -> int {
    if c {
        1
    } else {
        0
    }
}

/// The better of a best fill so far and a new one.
pub open spec fn combine(best: Option<int>, v: int) -> Option<int> {
    match best {
        Some(f) => Some(if v >= f {
            v
        } else {
            f
        }),
        None => Some(v),
    }
}

/// How many of the two rows of the T-slot centered on `(x, y + 1)` are filled outside it.
pub open spec fn tslot_fill(g: Seq<Seq<bool>>, x: int, y: int) -> int {
    2 - one_if(!outside_full(g, x, y)) - one_if(!outside_full(g, x, y + 1))
}

/// The best fill of the T-slots of row `y`, from column `x` on.
pub open spec fn tslot_row(g: Seq<Seq<bool>>, y: int, x: int, best: Option<int>) -> Option<int>
    decreases 9 - x,
{
    if x >= 9 {
        best
    } else {
        tslot_row(
            g,
            y,
            x + 1,
            if tslot_at(g, x, y + 1) {
                combine(best, tslot_fill(g, x, y))
            } else {
                best
            },
        )
    }
}

/// The best fill of the T-slots from row `y` up, over columns `1..9`.
pub open spec fn tslot_scan(g: Seq<Seq<bool>>, y: int, best: Option<int>) -> Option<int>
    decreases 20 - y,
{
    if y >= 20 {
        best
    } else {
        tslot_scan(g, y + 1, tslot_row(g, y, 1, best))
    }
}

/// How many rows from `y` up, one after another, are filled outside the column `x` and its
/// neighbours; at most three.
pub open spec fn tst_fill(g: Seq<Seq<bool>>, x: int, y: int) -> int {
    if !outside_full(g, x, y) {
        0
    } else if !outside_full(g, x, y + 1) {
        1
    } else if !outside_full(g, x, y + 2) {
        2
    } else {
        3
    }
}

/// How many of the four corners of a T spun into column `x` at rows `y` and `y + 2` are filled.
pub open spec fn tst_corners(g: Seq<Seq<bool>>, x: int, y: int) -> int {
    one_if(occ_grid(g, x - 1, y)) + one_if(occ_grid(g, x + 1, y)) + one_if(occ_grid(g, x - 1, y + 2))
        + one_if(occ_grid(g, x + 1, y + 2))
}

/// Column `x` has a four-cell shaft from row `y`, capped above, with at least three T corners.
pub open spec fn tst_shaft(g: Seq<Seq<bool>>, x: int, y: int) -> bool {
    &&& !occ_grid(g, x, y) && !occ_grid(g, x, y + 1) && !occ_grid(g, x, y + 2) && !occ_grid(
        g,
        x,
        y + 3,
    )
    &&& occ_grid(g, x, y + 4)
    &&& tst_corners(g, x, y) >= 3
}

/// The shaft has a triple slot opening to the left that is not buried.
pub open spec fn tst_left(g: Seq<Seq<bool>>, x: int, y: int) -> bool {
    !occ_grid(g, x - 1, y + 1) && occ_grid(g, x - 1, y + 2) && x >= 2 && !(hgt(g, x - 1) > y + 3
        || hgt(g, x - 2) > y + 3)
}

/// The shaft has a triple slot opening to the right that is not buried.
pub open spec fn tst_right(g: Seq<Seq<bool>>, x: int, y: int) -> bool {
    !occ_grid(g, x + 1, y + 1) && occ_grid(g, x + 1, y + 2) && x < 8 && !(hgt(g, x + 1) > y + 3
        || hgt(g, x + 2) > y + 3)
}

/// The best fill after looking at the shaft of column `x` from row `y`.
pub open spec fn tst_cell(g: Seq<Seq<bool>>, x: int, y: int, best: Option<int>) -> Option<int> {
    if !tst_shaft(g, x, y) {
        best
    } else {
        let f = tst_fill(g, x, y);
        let b1 = if tst_left(g, x, y) {
            combine(best, f)
        } else {
            best
        };
        if tst_right(g, x, y) {
            combine(b1, f)
        } else {
            b1
        }
    }
}

/// The best fill of the triple slots of row `y`, from column `x` on.
pub open spec fn tst_row(g: Seq<Seq<bool>>, y: int, x: int, best: Option<int>) -> Option<int>
    decreases 10 - x,
{
    if x >= 10 {
        best
    } else {
        tst_row(g, y, x + 1, tst_cell(g, x, y, best))
    }
}

/// The best fill of the triple slots from row `y` up.
pub open spec fn tst_scan(g: Seq<Seq<bool>>, y: int, best: Option<int>) -> Option<int>
    decreases 20 - y,
{
    if y >= 20 {
        best
    } else {
        tst_scan(g, y + 1, tst_row(g, y, 0, best))
    }
}

/// Whether every cell of row `cy` outside the columns `x - 1..=x + 1` is filled.
pub(crate) fn outside_full_exec(board: &Board, x: i32, cy: i32) -> (b: bool)
    requires
        board.inv(),
        -1 <= x <= 10,
        -2 <= cy <= 41,
    ensures
        b == outside_full(board.grid(), x as int, cy as int),
{
    let mut rx: i32 = 0;
    while rx < 10
        invariant
            board.inv(),
            0 <= rx <= 10,
            -1 <= x <= 10,
            forall|r: int|
                0 <= r < rx && (r < x - 1 || r > x + 1) ==> #[trigger] occ_grid(
                    board.grid(),
                    r,
                    cy as int,
                ),
        decreases 10 - rx,
    {
        if rx < x - 1 || rx > x + 1 {
            if !board.occupied(rx, cy) {
                return false;
            }
        }
        rx = rx + 1;
    }
    true
}

/// The better of a best fill so far and a new one.
fn combine_exec(best: Option<usize>, v: usize) -> (r: Option<usize>)
    ensures
        opt_int(r) == combine(opt_int(best), v as int),
        r is Some,
        r matches Some(f) && (f == v || best == Some(f)),
{
    match best {
        Some(fill) => Some(if v >= fill {
            v
        } else {
            fill
        }),
        None => Some(v),
    }
}

/// `best` as an optional integer.
pub open spec fn opt_int(best: Option<usize>) -> Option<int> {
    match best {
        Some(b) => Some(b as int),
        None => None,
    }
}

/// The best fill of a reachable T-slot, or `None` when there is none.
fn tslot(board: &Board) -> (r: Option<usize>)
    requires
        board.wf(),
    ensures
        opt_int(r) == tslot_scan(board.grid(), 0, None),
        r matches Some(f) ==> f <= 2,
{
    proof {
        lemma_board_heights(board);
    }
    let mut best: Option<usize> = None;
    let mut y: i32 = 0;
    while y < 20
        invariant
            board.wf(),
            0 <= y <= 20,
            tslot_scan(board.grid(), 0, None) == tslot_scan(board.grid(), y as int, opt_int(best)),
            best matches Some(f) ==> f <= 2,
        decreases 20 - y,
    {
        let ghost row_start = opt_int(best);
        let mut x: i32 = 1;
        while x < 9
            invariant
                board.wf(),
                0 <= y < 20,
                1 <= x <= 9,
                tslot_row(board.grid(), y as int, 1, row_start) == tslot_row(
                    board.grid(),
                    y as int,
                    x as int,
                    opt_int(best),
                ),
                best matches Some(f) ==> f <= 2,
            decreases 9 - x,
        {
            let left_t = FallingPiece {
                kind: PieceState(Piece::T, RotationState::West),
                tspin: TspinStatus::NoSpin,
                x,
                y: y + 1,
            };
            let right_t = FallingPiece {
                kind: PieceState(Piece::T, RotationState::East),
                tspin: TspinStatus::NoSpin,
                x,
                y: y + 1,
            };
            assert(left_t == t_at(RotationState::West, x as int, y + 1));
            assert(right_t == t_at(RotationState::East, x as int, y + 1));
            let mut found = false;
            if board.obstructed(&left_t) || board.obstructed(&right_t) {
            } else if !board.occupied(x - 1, y) || !board.occupied(x + 1, y) {
            } else {
                proof {
                    assert forall|i: int| 0 <= i < 4 implies 0 <= #[trigger] left_t.cell(i).0 < 10 by {
                        assert(!board.occ(left_t.cell(i).0, left_t.cell(i).1));
                    }
                    assert forall|i: int| 0 <= i < 4 implies 0 <= #[trigger] right_t.cell(i).0
                        < 10 by {
                        assert(!board.occ(right_t.cell(i).0, right_t.cell(i).1));
                    }
                }
                if board.above_stack(&left_t) && board.occupied(x + 1, y + 2) || board.above_stack(
                    &right_t,
                ) && board.occupied(x - 1, y + 2) {
                    found = true;
                }
            }
            assert(found == tslot_at(board.grid(), x as int, y + 1));
            if found {
                let mut filled: usize = 2;
                if !outside_full_exec(board, x, y) {
                    filled = filled - 1;
                }
                if !outside_full_exec(board, x, y + 1) {
                    filled = filled - 1;
                }
                assert(filled as int == tslot_fill(board.grid(), x as int, y as int));
                best = combine_exec(best, filled);
            }
            x = x + 1;
        }
        y = y + 1;
    }
    best
}

/// The best fill of a reachable triple slot, or `None` when there is none.
fn tst_slot(board: &Board) -> (r: Option<usize>)
    requires
        board.wf(),
    ensures
        opt_int(r) == tst_scan(board.grid(), 0, None),
        r matches Some(f) ==> f <= 3,
{
    proof {
        lemma_board_heights(board);
    }
    let heights = board.column_heights();
    let mut best: Option<usize> = None;
    let mut y: i32 = 0;
    while y < 20
        invariant
            board.wf(),
            forall|c: int| 0 <= c < 10 ==> #[trigger] heights@[c] as int == hgt(board.grid(), c),
            0 <= y <= 20,
            tst_scan(board.grid(), 0, None) == tst_scan(board.grid(), y as int, opt_int(best)),
            best matches Some(f) ==> f <= 3,
        decreases 20 - y,
    {
        let ghost row_start = opt_int(best);
        let mut x: i32 = 0;
        while x < 10
            invariant
                board.wf(),
                forall|c: int| 0 <= c < 10 ==> #[trigger] heights@[c] as int == hgt(board.grid(), c),
                0 <= y < 20,
                0 <= x <= 10,
                tst_row(board.grid(), y as int, 0, row_start) == tst_row(
                    board.grid(),
                    y as int,
                    x as int,
                    opt_int(best),
                ),
                best matches Some(f) ==> f <= 3,
            decreases 10 - x,
        {
            let ghost before = opt_int(best);
            if board.occupied(x, y) || board.occupied(x, y + 1) || board.occupied(x, y + 2)
                || board.occupied(x, y + 3) || !board.occupied(x, y + 4) {
            } else {
                let corners: u32 = (if board.occupied(x - 1, y) {
                    1u32
                } else {
                    0
                }) + (if board.occupied(x + 1, y) {
                    1u32
                } else {
                    0
                }) + (if board.occupied(x - 1, y + 2) {
                    1u32
                } else {
                    0
                }) + (if board.occupied(x + 1, y + 2) {
                    1u32
                } else {
                    0
                });
                assert(corners as int == tst_corners(board.grid(), x as int, y as int));
                if corners >= 3 {
                    let mut filled: usize = 0;
                    if outside_full_exec(board, x, y) {
                        filled = 1;
                        if outside_full_exec(board, x, y + 1) {
                            filled = 2;
                            if outside_full_exec(board, x, y + 2) {
                                filled = 3;
                            }
                        }
                    }
                    assert(filled as int == tst_fill(board.grid(), x as int, y as int));
                    if !board.occupied(x - 1, y + 1) && board.occupied(x - 1, y + 2) && x >= 2 {
                        if heights[x as usize - 1] > y + 3 || heights[x as usize - 2] > y + 3 {
                        } else {
                            best = combine_exec(best, filled);
                        }
                    }
                    if !board.occupied(x + 1, y + 1) && board.occupied(x + 1, y + 2) && x < 8 {
                        if heights[x as usize + 1] > y + 3 || heights[x as usize + 2] > y + 3 {
                        } else {
                            best = combine_exec(best, filled);
                        }
                    }
                }
            }
            assert(opt_int(best) == tst_cell(board.grid(), x as int, y as int, before));
            x = x + 1;
        }
        y = y + 1;
    }
    best
}

/// The weights of an evaluator that looks at simple features of the board.
#[derive(Copy, Clone, Debug, Eq, PartialEq, Hash)]
pub struct NaiveEvaluator {
    pub back_to_back: i32,
    pub bumpiness: i32,
    pub bumpiness_sq: i32,
    pub height: i32,
    pub top_half: i32,
    pub top_quarter: i32,
    pub cavity_cells: i32,
    pub cavity_cells_sq: i32,
    pub overhang_cells: i32,
    pub overhang_cells_sq: i32,
    pub covered_cells: i32,
    pub covered_cells_sq: i32,
    pub tslot: [i32; 3],
    pub tst_slot: [i32; 4],
    pub well_depth: i32,
    pub max_well_depth: i32,
    pub b2b_clear: i32,
    pub clear1: i32,
    pub clear2: i32,
    pub clear3: i32,
    pub clear4: i32,
    pub tspin1: i32,
    pub tspin2: i32,
    pub tspin3: i32,
    pub mini_tspin1: i32,
    pub mini_tspin2: i32,
    pub perfect_clear: i32,
    pub combo_table: [i32; 12],
    pub soft_drop: i32,
}

impl NaiveEvaluator {
    /// The board weights among these weights; T-slots are weighed separately.
    pub open spec fn board_weights(&self) -> BoardWeights {
        BoardWeights {
            back_to_back: self.back_to_back,
            bumpiness: self.bumpiness,
            bumpiness_sq: self.bumpiness_sq,
            height: self.height,
            top_half: self.top_half,
            top_quarter: self.top_quarter,
            cavity_cells: self.cavity_cells,
            cavity_cells_sq: self.cavity_cells_sq,
            overhang_cells: self.overhang_cells,
            overhang_cells_sq: self.overhang_cells_sq,
            covered_cells: self.covered_cells,
            covered_cells_sq: self.covered_cells_sq,
            tslot_present: 0,
            well_depth: self.well_depth,
            max_well_depth: self.max_well_depth,
        }
    }

    /// The placement weights among these weights.
    pub open spec fn placement_weights(&self) -> PlacementWeights {
        PlacementWeights {
            b2b_clear: self.b2b_clear,
            clear1: self.clear1,
            clear2: self.clear2,
            clear3: self.clear3,
            clear4: self.clear4,
            tspin1: self.tspin1,
            tspin2: self.tspin2,
            tspin3: self.tspin3,
            mini_tspin1: self.mini_tspin1,
            mini_tspin2: self.mini_tspin2,
            perfect_clear: self.perfect_clear,
            combo_table: self.combo_table,
            soft_drop: self.soft_drop,
        }
    }

    /// Every weight is small enough for the evaluation not to overflow `i32`.
    pub open spec fn in_range(&self) -> bool {
        &&& self.board_weights().in_range()
        &&& self.placement_weights().in_range()
        &&& forall|i: int| 0 <= i < 3 ==> small(#[trigger] self.tslot@[i])
        &&& forall|i: int| 0 <= i < 4 ==> small(#[trigger] self.tst_slot@[i])
    }

    /// What the board is worth: its features as `BoardWeights` weighs them, plus the best
    /// T-slot and the best triple slot by how filled they are.
    pub open spec fn transient_value(&self, board: &Board) -> int {
        let g = board.grid();
        let bw = self.board_weights();
        bw.height_value(board) + bw.well_value(g) + bw.bumpiness_value(g) + bw.holes_value(g)
            + bw.covered_value(g) + (match tslot_scan(g, 0, None) {
            Some(f) => self.tslot@[f] as int,
            None => 0,
        }) + (match tst_scan(g, 0, None) {
            Some(f) => self.tst_slot@[f] as int,
            None => 0,
        })
    }

    /// Sets the weights to their tuned values.
    pub fn default() -> (e: NaiveEvaluator)
        ensures
            e.back_to_back == 50 && e.bumpiness == -10 && e.bumpiness_sq == -5 && e.height == -40
                && e.top_half == -150 && e.top_quarter == -500 && e.cavity_cells == -150
                && e.cavity_cells_sq == -10 && e.overhang_cells == -50 && e.overhang_cells_sq
                == -10 && e.covered_cells == -10 && e.covered_cells_sq == -10,
            e.tslot@ == seq![50i32, 150, 200],
            e.tst_slot@ == seq![500i32, 600, 700, 900],
            e.well_depth == 50 && e.max_well_depth == 8 && e.soft_drop == -10 && e.b2b_clear
                == 100 && e.clear1 == -150 && e.clear2 == -100 && e.clear3 == -50 && e.clear4
                == 400 && e.tspin1 == 130 && e.tspin2 == 400 && e.tspin3 == 600 && e.mini_tspin1
                == 0 && e.mini_tspin2 == 100 && e.perfect_clear == 1000,
            forall|i: int| 0 <= i < 12 ==> #[trigger] e.combo_table@[i] == combo_garbage_spec(i) * 100,
            e.in_range(),
    {
        let mut combo_table: [i32; 12] = [0; 12];
        let mut i: usize = 0;
        while i < 12
            invariant
                i <= 12,
                forall|k: int| 0 <= k < i ==> #[trigger] combo_table@[k] == combo_garbage_spec(k) * 100,
            decreases 12 - i,
        {
            let g = combo_garbage(i);
            assert(g <= 4);
            combo_table[i] = g as i32 * 100;
            i = i + 1;
        }
        let e = NaiveEvaluator {
            back_to_back: 50,
            bumpiness: -10,
            bumpiness_sq: -5,
            height: -40,
            top_half: -150,
            top_quarter: -500,
            cavity_cells: -150,
            cavity_cells_sq: -10,
            overhang_cells: -50,
            overhang_cells_sq: -10,
            covered_cells: -10,
            covered_cells_sq: -10,
            tslot: [50, 150, 200],
            tst_slot: [500, 600, 700, 900],
            well_depth: 50,
            max_well_depth: 8,
            soft_drop: -10,
            b2b_clear: 100,
            clear1: -150,
            clear2: -100,
            clear3: -50,
            clear4: 400,
            tspin1: 130,
            tspin2: 400,
            tspin3: 600,
            mini_tspin1: 0,
            mini_tspin2: 100,
            perfect_clear: 1000,
            combo_table,
        };
        assert(e.tslot@ == seq![50i32, 150, 200]);
        assert(e.tst_slot@ == seq![500i32, 600, 700, 900]);
        e
    }

    /// Evaluates a placement: what it earned, as `PlacementWeights::value` describes, and what
    /// the board it leaves is worth (`transient_value`).
    pub fn evaluate(&mut self, lock: &LockResult, board: &Board, soft_dropped: bool) -> (e: Evaluation)
        requires
            old(self).in_range(),
            board.wf(),
        ensures
            *final(self) == *old(self),
            e.accumulated as int == old(self).placement_weights().value(*lock, soft_dropped),
            e.transient as int == old(self).transient_value(board),
    {
        let bw = BoardWeights {
            back_to_back: self.back_to_back,
            bumpiness: self.bumpiness,
            bumpiness_sq: self.bumpiness_sq,
            height: self.height,
            top_half: self.top_half,
            top_quarter: self.top_quarter,
            cavity_cells: self.cavity_cells,
            cavity_cells_sq: self.cavity_cells_sq,
            overhang_cells: self.overhang_cells,
            overhang_cells_sq: self.overhang_cells_sq,
            covered_cells: self.covered_cells,
            covered_cells_sq: self.covered_cells_sq,
            tslot_present: 0,
            well_depth: self.well_depth,
            max_well_depth: self.max_well_depth,
        };
        let pw = PlacementWeights {
            b2b_clear: self.b2b_clear,
            clear1: self.clear1,
            clear2: self.clear2,
            clear3: self.clear3,
            clear4: self.clear4,
            tspin1: self.tspin1,
            tspin2: self.tspin2,
            tspin3: self.tspin3,
            mini_tspin1: self.mini_tspin1,
            mini_tspin2: self.mini_tspin2,
            perfect_clear: self.perfect_clear,
            combo_table: self.combo_table,
            soft_drop: self.soft_drop,
        };
        let acc_eval = pw.placement_value(lock, soft_dropped);
        let h = bw.height_score(board);
        let (w, well) = bw.well_score(board);
        let b = bw.bumpiness_score(board, well);
        let c = bw.holes_score(board);
        let k = bw.covered_score(board);
        let t: i32 = match tslot(board) {
            Some(filled) => {
                assert(small(self.tslot@[filled as int]));
                self.tslot[filled]
            },
            None => 0,
        };
        let u: i32 = match tst_slot(board) {
            Some(filled) => {
                assert(small(self.tst_slot@[filled as int]));
                self.tst_slot[filled]
            },
            None => 0,
        };
        Evaluation { accumulated: acc_eval, transient: h + w + b + c + k + t + u }
    }
}

} // verus!
