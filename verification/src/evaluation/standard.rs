use vstd::prelude::*;
use vstd::string::StringExecFns;
use crate::board::{Board, occ_grid, collides_g, placed_grid, full_rows, clear_lines, kept_rows};
use crate::evaluation::{Evaluation, MoveCandidate};
use crate::evaluation::shapes::{
    Shape, scan, twist_spec, twist_slot, tslot_location, corner_count, bit_count, cave_spec,
    no_full_rows, on_field, shaped, fits, lemma_scan_found, lemma_shape_piece_ok,
    lemma_tslot_location_ok, lemma_t_clears_at_most_three, lemma_clear_lines_not_full,
    sky_tslot_left, sky_tslot_right, tst_twist_left, tst_twist_right, fin_left, fin_right,
    cave_tslot,
};
use crate::evaluation::features::{
    max_height, well_column, well_depth_from, hgt, bumpiness_spec, holes_spec, covered_spec,
    row_transitions_spec, highest_point, find_well, well_depth, bumpiness,
    cavities_and_overhangs, covered_cells, row_transitions,
};
use crate::evaluation::sum_range;
use crate::piece::{
    FallingPiece, Piece, PlacementKind, TspinStatus, LockResult, combo_garbage_spec, combo_garbage,
};
use crate::piece_set::PieceSet;
use crate::board::bag_back;

verus! {

/// The weights of the standard evaluator.
#[derive(Clone, Debug, Eq, PartialEq, Hash)]
pub struct Standard {
    pub back_to_back: i32,
    pub bumpiness: i32,
    pub bumpiness_sq: i32,
    pub row_transitions: i32,
    pub height: i32,
    pub top_half: i32,
    pub top_quarter: i32,
    pub jeopardy: i32,
    pub cavity_cells: i32,
    pub cavity_cells_sq: i32,
    pub overhang_cells: i32,
    pub overhang_cells_sq: i32,
    pub covered_cells: i32,
    pub covered_cells_sq: i32,
    pub tslot: [i32; 4],
    pub well_depth: i32,
    pub max_well_depth: i32,
    pub well_column: [i32; 10],
    pub b2b_clear: i32,
    pub clear1: i32,
    pub clear2: i32,
    pub clear3: i32,
    pub clear4: i32,
    pub tspin1: i32,
    pub tspin2: i32,
    pub tspin3: i32,
    pub mini_tspin1: i32,
    pub mini_tspin2: i32,
    pub perfect_clear: i32,
    pub combo_garbage: i32,
    pub move_time: i32,
    pub wasted_t: i32,
    pub use_bag: bool,
    pub timed_jeopardy: bool,
    pub stack_pc_damage: bool,
    pub sub_name: Option<String>,
}

impl Standard {
    /// The default weights.
    pub fn default() -> (s: Standard)
        ensures
            s.back_to_back == 52 && s.bumpiness == -24 && s.bumpiness_sq == -7
                && s.row_transitions == -5 && s.height == -39 && s.top_half == -150
                && s.top_quarter == -511 && s.jeopardy == -11 && s.cavity_cells == -173
                && s.cavity_cells_sq == -3 && s.overhang_cells == -34 && s.overhang_cells_sq == -1
                && s.covered_cells == -17 && s.covered_cells_sq == -1,
            s.tslot@ == seq![8i32, 148, 192, 407],
            s.well_depth == 57 && s.max_well_depth == 17,
            s.well_column@ == seq![20i32, 23, 20, 50, 59, 21, 59, 10, -10i32, 24],
            s.move_time == -3 && s.wasted_t == -152 && s.b2b_clear == 104 && s.clear1 == -143
                && s.clear2 == -100 && s.clear3 == -58 && s.clear4 == 390 && s.tspin1 == 121
                && s.tspin2 == 410 && s.tspin3 == 602 && s.mini_tspin1 == -158 && s.mini_tspin2
                == -93 && s.perfect_clear == 999 && s.combo_garbage == 150,
            s.use_bag && s.timed_jeopardy && !s.stack_pc_damage,
            s.sub_name == None::<String>,
            s.weights_in_range(),
    {
        let s = Standard {
            back_to_back: 52,
            bumpiness: -24,
            bumpiness_sq: -7,
            row_transitions: -5,
            height: -39,
            top_half: -150,
            top_quarter: -511,
            jeopardy: -11,
            cavity_cells: -173,
            cavity_cells_sq: -3,
            overhang_cells: -34,
            overhang_cells_sq: -1,
            covered_cells: -17,
            covered_cells_sq: -1,
            tslot: [8, 148, 192, 407],
            well_depth: 57,
            max_well_depth: 17,
            well_column: [20, 23, 20, 50, 59, 21, 59, 10, -10i32, 24],
            move_time: -3,
            wasted_t: -152,
            b2b_clear: 104,
            clear1: -143,
            clear2: -100,
            clear3: -58,
            clear4: 390,
            tspin1: 121,
            tspin2: 410,
            tspin3: 602,
            mini_tspin1: -158,
            mini_tspin2: -93,
            perfect_clear: 999,
            combo_garbage: 150,
            use_bag: true,
            timed_jeopardy: true,
            stack_pc_damage: false,
            sub_name: None,
        };
        assert(s.tslot@ == seq![8i32, 148, 192, 407]);
        assert(s.well_column@ == seq![20i32, 23, 20, 50, 59, 21, 59, 10, -10i32, 24]);
        s
    }

    /// Weights tuned for evaluating quickly.
    pub fn fast_config() -> (s: Standard)
        ensures
            s.back_to_back == 10 && s.bumpiness == -7 && s.bumpiness_sq == -28
                && s.row_transitions == -5 && s.height == -46 && s.top_half == -126
                && s.top_quarter == -493 && s.jeopardy == -11 && s.cavity_cells == -176
                && s.cavity_cells_sq == -6 && s.overhang_cells == -47 && s.overhang_cells_sq == -9
                && s.covered_cells == -25 && s.covered_cells_sq == 1,
            s.tslot@ == seq![0i32, 150, 296, 207],
            s.well_depth == 158 && s.max_well_depth == -2,
            s.well_column@ == seq![31i32, 16, -41i32, 37, 49, 30, 56, 48, -27i32, 22],
            s.b2b_clear == 74 && s.clear1 == -122 && s.clear2 == -174 && s.clear3 == 11
                && s.clear4 == 424 && s.tspin1 == 131 && s.tspin2 == 392 && s.tspin3 == 628
                && s.mini_tspin1 == -188 && s.mini_tspin2 == -682 && s.perfect_clear == 991
                && s.combo_garbage == 272 && s.move_time == -1 && s.wasted_t == -147,
            s.use_bag && !s.timed_jeopardy && !s.stack_pc_damage,
            s.sub_name == None::<String>,
            s.weights_in_range(),
    {
        let s = Standard {
            back_to_back: 10,
            bumpiness: -7,
            bumpiness_sq: -28,
            row_transitions: -5,
            height: -46,
            top_half: -126,
            top_quarter: -493,
            jeopardy: -11,
            cavity_cells: -176,
            cavity_cells_sq: -6,
            overhang_cells: -47,
            overhang_cells_sq: -9,
            covered_cells: -25,
            covered_cells_sq: 1,
            tslot: [0, 150, 296, 207],
            well_depth: 158,
            max_well_depth: -2,
            well_column: [31, 16, -41i32, 37, 49, 30, 56, 48, -27i32, 22],
            b2b_clear: 74,
            clear1: -122,
            clear2: -174,
            clear3: 11,
            clear4: 424,
            tspin1: 131,
            tspin2: 392,
            tspin3: 628,
            mini_tspin1: -188,
            mini_tspin2: -682,
            perfect_clear: 991,
            combo_garbage: 272,
            move_time: -1,
            wasted_t: -147,
            use_bag: true,
            timed_jeopardy: false,
            stack_pc_damage: false,
            sub_name: None,
        };
        assert(s.tslot@ == seq![0i32, 150, 296, 207]);
        assert(s.well_column@ == seq![31i32, 16, -41i32, 37, 49, 30, 56, 48, -27i32, 22]);
        s
    }
}

/// Largest magnitude of a weight for which the evaluation cannot overflow `i32`.
pub open spec fn weight_bound() -> int {
    4096
}

/// `w` is a weight of admissible magnitude.
pub open spec fn small(w: i32) -> bool {
    -weight_bound() <= w <= weight_bound()
}

impl Standard {
    /// Every weight has magnitude at most `weight_bound()`, so that no evaluation overflows.
    pub open spec fn weights_in_range(&self) -> bool {
        &&& small(self.back_to_back) && small(self.bumpiness) && small(self.bumpiness_sq)
        &&& small(self.row_transitions) && small(self.height) && small(self.top_half)
        &&& small(self.top_quarter) && small(self.jeopardy) && small(self.cavity_cells)
        &&& small(self.cavity_cells_sq) && small(self.overhang_cells) && small(
            self.overhang_cells_sq,
        )
        &&& small(self.covered_cells) && small(self.covered_cells_sq)
        &&& forall|i: int| 0 <= i < 4 ==> small(#[trigger] self.tslot@[i])
        &&& small(self.well_depth) && small(self.max_well_depth)
        &&& forall|i: int| 0 <= i < 10 ==> small(#[trigger] self.well_column@[i])
        &&& small(self.b2b_clear) && small(self.clear1) && small(self.clear2) && small(self.clear3)
        &&& small(self.clear4) && small(self.tspin1) && small(self.tspin2) && small(self.tspin3)
        &&& small(self.mini_tspin1) && small(self.mini_tspin2) && small(self.perfect_clear)
        &&& small(self.combo_garbage) && small(self.move_time) && small(self.wasted_t)
    }
}

/// The part of an evaluation that a placement earns once.
#[derive(Copy, Clone, Debug, Eq, PartialEq, Default, Structural)]
pub struct Reward {
    pub value: i32,
    pub attack: i32,
}

/// The evaluation of a position: its score and the attack built up since the last non-clearing
/// placement.
#[derive(Copy, Clone, Debug, Eq, PartialEq, Ord, PartialOrd, Default, Structural)]
pub struct Value {
    pub value: i32,
    pub spike: i32,
}

/// Integer division rounding towards zero, as Rust's `/` on signed integers does.
pub open spec fn div_trunc(a: int, b: int) -> int {
    if a >= 0 {
        a / b
    } else {
        -((-a) / b)
    }
}

impl Value {
    /// Field-wise sum.
    pub fn add(self, rhs: Value) -> (v: Value)
        requires
            i32::MIN <= self.value + rhs.value <= i32::MAX,
            i32::MIN <= self.spike + rhs.spike <= i32::MAX,
        ensures
            v.value == self.value + rhs.value,
            v.spike == self.spike + rhs.spike,
    {
        Value { value: self.value + rhs.value, spike: self.spike + rhs.spike }
    }

    /// Adds a reward: its value adds up, and its attack extends the spike, or ends it when the
    /// placement cleared nothing (`attack == -1`).
    pub fn add_reward(self, rhs: Reward) -> (v: Value)
        requires
            i32::MIN <= self.value + rhs.value <= i32::MAX,
            rhs.attack != -1 ==> i32::MIN <= self.spike + rhs.attack <= i32::MAX,
        ensures
            v.value == self.value + rhs.value,
            v.spike == if rhs.attack == -1 {
                0
            } else {
                self.spike + rhs.attack
            },
    {
        Value {
            value: self.value + rhs.value,
            spike: if rhs.attack == -1 {
                0
            } else {
                self.spike + rhs.attack
            },
        }
    }

    /// Field-wise division, rounding towards zero.
    pub fn div(self, rhs: usize) -> (v: Value)
        requires
            0 < rhs <= i32::MAX,
        ensures
            v.value == div_trunc(self.value as int, rhs as int),
            v.spike == div_trunc(self.spike as int, rhs as int),
    {
        let d = rhs as i32;
        Value { value: self.value / d, spike: self.spike / d }
    }

    /// Field-wise multiplication.
    pub fn mul(self, rhs: usize) -> (v: Value)
        requires
            rhs <= i32::MAX,
            i32::MIN <= self.value * rhs <= i32::MAX,
            i32::MIN <= self.spike * rhs <= i32::MAX,
        ensures
            v.value == self.value * rhs,
            v.spike == self.spike * rhs,
    {
        let m = rhs as i32;
        Value { value: self.value * m, spike: self.spike * m }
    }
}

impl Evaluation<Reward> for Value {
    open spec fn weight_fits(&self, min: &Value, rank: usize) -> bool {
        let e = self.value - min.value + 10;
        &&& -3_000_000_000 <= e <= 3_000_000_000
        &&& rank <= 3_000_000_000
    }

    open spec fn death_fits(&self) -> bool {
        self.value >= i32::MIN + 1000
    }

    /// A dead line loses a thousand points and its spike.
    fn modify_death(self) -> (v: Value)
        ensures
            v.value == self.value - 1000,
            v.spike == 0,
    {
        Value { value: self.value - 1000, spike: 0 }
    }

    fn weight(self, min: &Value, rank: usize) -> (w: i64)
        ensures
            w as int == ((self.value - min.value + 10) * (self.value - min.value + 10)) / (rank
                * rank + 1),
    {
        let e = (self.value as i64 - min.value as i64) + 10;
        let r = rank as i64;
        assert(e * e <= 9_000_000_000_000_000_000) by (nonlinear_arith)
            requires
                -3_000_000_000 <= e <= 3_000_000_000,
        ;
        assert(0 <= e * e) by (nonlinear_arith);
        assert(r * r + 1 <= 9_000_000_000_000_000_001) by (nonlinear_arith)
            requires
                0 <= r <= 3_000_000_000,
        ;
        assert(0 < r * r + 1) by (nonlinear_arith)
            requires
                0 <= r,
        ;
        (e * e) / (r * r + 1)
    }

    fn improve(&mut self, new_result: Value)
        ensures
            final(self).value == if old(self).value >= new_result.value {
                old(self).value
            } else {
                new_result.value
            },
            final(self).spike == if old(self).spike >= new_result.spike {
                old(self).spike
            } else {
                new_result.spike
            },
    {
        if new_result.value > self.value {
            self.value = new_result.value;
        }
        if new_result.spike > self.spike {
            self.spike = new_result.spike;
        }
    }
}

/// A twist spot that was found is a T piece that fits, with its position in range.
proof fn lemma_twist_ok(g: Seq<Seq<bool>>)
    requires
        shaped(g),
        twist_spec(g) is Some,
    ensures
        twist_spec(g)->0.kind.0 == Piece::T,
        twist_spec(g)->0.in_range(),
        fits(g, twist_spec(g)->0),
{
    let s = if scan(g, Shape::TstLeft, 0) is Some {
        Shape::TstLeft
    } else {
        Shape::TstRight
    };
    lemma_scan_found(g, s, 0);
    let x2 = choose|x2: int|
        0 <= x2 <= 10 - crate::evaluation::shapes::shape_width(s) && crate::evaluation::shapes::shape_cond(g, s, x2)
            && scan(g, s, 0) == Some(#[trigger] crate::evaluation::shapes::shape_piece(g, s, x2));
    lemma_shape_piece_ok(g, s, x2);
}

/// The T-slot that a twist spot leads to, if any.
fn twist_slot_exec(board: &Board) -> (r: Option<FallingPiece>)
    requires
        board.wf(),
    ensures
        r == twist_slot(board.grid()),
{
    proof {
        board.lemma_inv();
    }
    let tst = match tst_twist_left(board) {
        Some(t) => Some(t),
        None => tst_twist_right(board),
    };
    match tst {
        None => None,
        Some(t) => {
            proof {
                lemma_twist_ok(board.grid());
            }
            match cave_tslot(board, t) {
                Some(c) => Some(c),
                None => {
                    let corners: u32 = (if board.occupied(t.x - 1, t.y - 1) {
                        1u32
                    } else {
                        0
                    }) + (if board.occupied(t.x + 1, t.y - 1) {
                        1u32
                    } else {
                        0
                    }) + (if board.occupied(t.x - 1, t.y + 1) {
                        1u32
                    } else {
                        0
                    }) + (if board.occupied(t.x + 1, t.y + 1) {
                        1u32
                    } else {
                        0
                    });
                    assert(corners as int == corner_count(board.grid(), t));
                    let on = board.on_stack(&t);
                    proof {
                        if on {
                            let i = choose|i: int|
                                0 <= i < 4 && board.occ(t.cell(i).0, t.cell(i).1 - 1);
                            assert(occ_grid(board.grid(), t.cell(i).0 + 0, t.cell(i).1 + -1));
                        }
                        if collides_g(board.grid(), t, 0, -1) {
                            let i = choose|i: int|
                                0 <= i < 4 && #[trigger] occ_grid(
                                    board.grid(),
                                    t.cell(i).0 + 0,
                                    t.cell(i).1 + -1,
                                );
                            assert(board.occ(t.cell(i).0, t.cell(i).1 - 1));
                        }
                    }
                    if corners >= 3 && on {
                        Some(t)
                    } else {
                        None
                    }
                },
            }
        },
    }
}

/// Where the evaluator cuts out a T-slot: sky slots first, then twist spots, then fins.
fn cutout_location(board: &Board) -> (r: Option<FallingPiece>)
    requires
        board.wf(),
    ensures
        r == tslot_location(board.grid()),
{
    match sky_tslot_left(board) {
        Some(p) => Some(p),
        None => match sky_tslot_right(board) {
            Some(p) => Some(p),
            None => match twist_slot_exec(board) {
                Some(p) => Some(p),
                None => match fin_left(board) {
                    Some(p) => Some(p),
                    None => fin_right(board),
                },
            },
        },
    }
}

/// What filling a T-slot leaves behind: the lines it cleared, and the board when it cleared two
/// or more (a slot that clears fewer is not worth counting on further).
pub(crate) struct Cutout {
    pub(crate) lines: usize,
    pub(crate) result: Option<Board>,
}

/// Places a T-spin at `piece` on a copy of the board and reports what it clears.
pub(crate) fn cutout_tslot(board: Board, piece: FallingPiece) -> (c: Cutout)
    requires
        board.wf(),
        full_rows(placed_grid(board.grid(), piece), 40).len() <= 3,
        piece.kind.0 == Piece::T,
        on_field(piece),
        piece.in_range(),
        board.combo_of() < u32::MAX,
    ensures
        c.lines as int == full_rows(placed_grid(board.grid(), piece), 40).len(),
        c.lines <= 3,
        (c.lines >= 2) == (c.result is Some),
        c.result matches Some(b) ==> {
            &&& b.wf()
            &&& b.grid() == clear_lines(placed_grid(board.grid(), piece))
            &&& b.combo_of() == board.combo_of() + 1
            &&& no_full_rows(b.grid())
        },
{
    let ghost g = board.grid();
    proof {
        board.lemma_inv();
    }
    let ghost p0 = piece;
    let mut board = board;
    let mut piece = piece;
    piece.tspin = TspinStatus::Full;
    proof {
        assert forall|i: int| #![auto] 0 <= i < 4 implies piece.cell(i) == p0.cell(i) by {}
        assert forall|x: int, y: int| piece.covers(x, y) == p0.covers(x, y) by {
            if piece.covers(x, y) {
                let i = choose|i: int| 0 <= i < 4 && #[trigger] piece.cell(i) == (x, y);
                assert(p0.cell(i) == (x, y));
            }
            if p0.covers(x, y) {
                let i = choose|i: int| 0 <= i < 4 && #[trigger] p0.cell(i) == (x, y);
                assert(piece.cell(i) == (x, y));
            }
        }
        assert(placed_grid(g, piece) =~~= placed_grid(g, p0));
    }
    let result = board.lock_piece(piece);
    proof {
        lemma_clear_lines_not_full(placed_grid(g, piece));
    }
    match result.placement_kind {
        PlacementKind::Tspin => Cutout { lines: 0, result: None },
        PlacementKind::Tspin1 => Cutout { lines: 1, result: None },
        PlacementKind::Tspin2 => Cutout { lines: 2, result: Some(board) },
        PlacementKind::Tspin3 => Cutout { lines: 3, result: Some(board) },
        _ => {
            proof {
                assert(false);
            }
            Cutout { lines: 0, result: None }
        },
    }
}

/// `v` if it is positive, else zero.
pub open spec fn pos(v: int) -> int {
    if v > 0 {
        v
    } else {
        0
    }
}

/// A weight of admissible magnitude times a value of magnitude at most `b`.
pub(crate) proof fn lemma_mul_bound(w: int, x: int, b: int)
    requires
        small(w as i32),
        w == w as i32,
        -b <= x <= b,
    ensures
        -weight_bound() * b <= w * x <= weight_bound() * b,
        -weight_bound() * b <= x * w <= weight_bound() * b,
{
    assert(-4096 * b <= w * x <= 4096 * b && w * x == x * w) by (nonlinear_arith)
        requires
            -4096 <= w <= 4096,
            -b <= x <= b,
    ;
}

/// Tslot phase: fills up to `n` T-slots in turn, summing their weights by lines cleared, and
/// stopping at the first slot that is missing or clears fewer than two lines. Gives the sum and
/// the grid left behind.
pub open spec fn tslot_phase(w: Seq<i32>, g: Seq<Seq<bool>>, n: int) -> (int, Seq<Seq<bool>>)
    decreases n,
{
    if n <= 0 {
        (0, g)
    } else {
        match tslot_location(g) {
            None => (0, g),
            Some(p) => {
                let lines = full_rows(placed_grid(g, p), 40).len() as int;
                if lines >= 2 {
                    let rest = tslot_phase(w, clear_lines(placed_grid(g, p)), n - 1);
                    (w[lines] + rest.0, rest.1)
                } else {
                    (w[lines] as int, g)
                }
            },
        }
    }
}

/// The T-slot phase on grid `g` with `n` slots can be played out: no slot it fills completes
/// more than three rows.
pub open spec fn tslot_fits(g: Seq<Seq<bool>>, n: int) -> bool
    decreases n,
{
    if n <= 0 {
        true
    } else {
        match tslot_location(g) {
            None => true,
            Some(p) => {
                let lines = full_rows(placed_grid(g, p), 40).len() as int;
                lines <= 3 && (lines >= 2 ==> tslot_fits(clear_lines(placed_grid(g, p)), n - 1))
            },
        }
    }
}

/// The rows kept among the first `n` of a grid of ten-cell rows are ten-cell rows.
proof fn lemma_kept_shaped(g: Seq<Seq<bool>>, n: int)
    requires
        0 <= n <= g.len(),
        forall|y: int| 0 <= y < n ==> (#[trigger] g[y]).len() == 10,
    ensures
        kept_rows(g, n).len() <= n,
        forall|i: int| 0 <= i < kept_rows(g, n).len() ==> (#[trigger] kept_rows(g, n)[i]).len() == 10,
    decreases n,
{
    if n > 0 {
        lemma_kept_shaped(g, n - 1);
    }
}

/// Placing a piece and clearing lines keeps forty rows of ten cells.
pub(crate) proof fn lemma_shaped_after(g: Seq<Seq<bool>>, p: FallingPiece)
    requires
        shaped(g),
    ensures
        shaped(clear_lines(placed_grid(g, p))),
{
    let pg = placed_grid(g, p);
    lemma_kept_shaped(pg, 40);
    let c = clear_lines(pg);
    assert forall|y: int| 0 <= y < 40 implies (#[trigger] c[y]).len() == 10 by {
        if y >= kept_rows(pg, 40).len() {
            assert(c[y] == crate::board::empty_row());
        }
    }
}

/// On a grid without full rows the T-slot phase can always be played out.
pub proof fn lemma_tslot_fits(g: Seq<Seq<bool>>, n: int)
    requires
        shaped(g),
        no_full_rows(g),
    ensures
        tslot_fits(g, n),
    decreases n,
{
    if n > 0 {
        if let Some(p) = tslot_location(g) {
            lemma_tslot_location_ok(g);
            lemma_t_clears_at_most_three(g, p);
            let g2 = clear_lines(placed_grid(g, p));
            lemma_clear_lines_not_full(placed_grid(g, p));
            lemma_shaped_after(g, p);
            lemma_tslot_fits(g2, n - 1);
        }
    }
}

/// A weight of `i32` times a value of magnitude at most `b`.
pub(crate) proof fn lemma_mul_wide(w: int, x: int, b: int)
    requires
        -0x8000_0000 <= w < 0x8000_0000,
        -b <= x <= b,
    ensures
        -0x8000_0000 * b <= w * x <= 0x8000_0000 * b,
        w * x == x * w,
{
    assert(-0x8000_0000 * b <= w * x <= 0x8000_0000 * b && w * x == x * w) by (nonlinear_arith)
        requires
            -0x8000_0000 <= w < 0x8000_0000,
            -b <= x <= b,
    ;
}

impl Standard {
    /// How many T-slots to fill: with bag knowledge, one for a T left in the bag, one more when
    /// the bag is nearly used up and one for a held T; without, one plus one for a held T.
    pub open spec fn tslot_count(&self, bag: PieceSet, hold: Option<Piece>) -> int {
        if self.use_bag {
            bit_count(bag.has(Piece::T)) + bit_count(bag.len_spec() <= 3) + bit_count(
                hold == Some(Piece::T),
            )
        } else {
            1 + bit_count(hold == Some(Piece::T))
        }
    }

    /// The score of the height of a stack and of its well.
    pub open spec fn well_score_spec(&self, g: Seq<Seq<bool>>) -> int {
        let well = well_column(g, 10);
        let raw = well_depth_from(g, well, hgt(g, well));
        let depth = if raw < self.max_well_depth {
            raw
        } else {
            self.max_well_depth as int
        };
        self.height * max_height(g, 10) + self.well_depth * depth + (if depth != 0 {
            self.well_column@[well] as int
        } else {
            0
        })
    }

    /// The score of the row transitions of a stack.
    pub open spec fn transitions_score_spec(&self, g: Seq<Seq<bool>>) -> int {
        self.row_transitions * sum_range(0, 40, |y: int| row_transitions_spec(g[y]))
    }

    /// The score of the bumpiness of a stack outside its well.
    pub open spec fn bumpiness_score_spec(&self, g: Seq<Seq<bool>>) -> int {
        let bump = bumpiness_spec(g, well_column(g, 10));
        bump.0 * self.bumpiness + bump.1 * self.bumpiness_sq
    }

    /// The score of the cavities and overhangs of a stack.
    pub open spec fn holes_score_spec(&self, g: Seq<Seq<bool>>) -> int {
        let holes = holes_spec(g);
        self.cavity_cells * holes.0 + self.cavity_cells_sq * holes.0 * holes.0
            + self.overhang_cells * holes.1 + self.overhang_cells_sq * holes.1 * holes.1
    }

    /// The score of how covered the holes of a stack are.
    pub open spec fn covered_score_spec(&self, g: Seq<Seq<bool>>) -> int {
        let cov = covered_spec(g);
        self.covered_cells * cov.0 + self.covered_cells_sq * cov.1
    }

    /// The score of the shape of a stack: height, well, row transitions, bumpiness, holes and
    /// covered holes.
    pub open spec fn shape_spec(&self, g: Seq<Seq<bool>>) -> int {
        self.well_score_spec(g) + self.transitions_score_spec(g) + self.bumpiness_score_spec(g)
            + self.holes_score_spec(g) + self.covered_score_spec(g)
    }

    /// The evaluation of a board: back-to-back, danger near the top, the T-slots it offers and
    /// the shape of what is left once they are filled.
    pub open spec fn transient_spec(&self, board: &Board) -> int {
        let g = board.grid();
        let hp = max_height(g, 10);
        let phase = tslot_phase(
            self.tslot@,
            g,
            self.tslot_count(bag_back(board.bag_of(), board.queue()), board.hold_of()),
        );
        (if board.b2b_of() {
            self.back_to_back as int
        } else {
            0
        }) + self.top_quarter * pos(hp - 15) + self.top_half * pos(hp - 10) + phase.0
            + self.shape_spec(phase.1)
    }

    /// The weight of a placement kind.
    pub open spec fn clear_weight(&self, kind: PlacementKind) -> int {
        match kind {
            PlacementKind::Clear1 => self.clear1 as int,
            PlacementKind::Clear2 => self.clear2 as int,
            PlacementKind::Clear3 => self.clear3 as int,
            PlacementKind::Clear4 => self.clear4 as int,
            PlacementKind::Tspin1 => self.tspin1 as int,
            PlacementKind::Tspin2 => self.tspin2 as int,
            PlacementKind::Tspin3 => self.tspin3 as int,
            PlacementKind::MiniTspin1 => self.mini_tspin1 as int,
            PlacementKind::MiniTspin2 => self.mini_tspin2 as int,
            _ => 0,
        }
    }

    /// What a line clear earns: back-to-back, combo garbage and the weight of its kind.
    pub open spec fn clear_reward_spec(&self, lock: LockResult) -> int {
        (if lock.b2b {
            self.b2b_clear as int
        } else {
            0
        }) + (match lock.combo {
            Some(c) => self.combo_garbage * combo_garbage_spec(
                if c < 11 {
                    c as int
                } else {
                    11
                },
            ),
            None => 0,
        }) + self.clear_weight(lock.placement_kind)
    }

    /// The time a placement takes: a line clear adds forty frames of delay.
    pub open spec fn placement_time(kind: PlacementKind, move_time: int) -> int {
        if kind.is_clear_spec() {
            move_time + 40
        } else {
            move_time
        }
    }

    /// What a placement earns: a perfect clear, the line clear itself (unless a perfect clear
    /// stands in for it), a penalty for a T not used for a T-spin, the time taken, and the time
    /// spent with the stack high.
    pub open spec fn reward_spec(
        &self,
        lock: LockResult,
        highest: int,
        move_time: int,
        placed: Piece,
    ) -> int {
        let mt = Self::placement_time(lock.placement_kind, move_time);
        (if lock.perfect_clear {
            self.perfect_clear as int
        } else {
            0
        }) + (if self.stack_pc_damage || !lock.perfect_clear {
            self.clear_reward_spec(lock)
        } else {
            0
        }) + (if placed == Piece::T && !(lock.placement_kind == PlacementKind::Tspin1
            || lock.placement_kind == PlacementKind::Tspin2 || lock.placement_kind
            == PlacementKind::Tspin3) {
            self.wasted_t as int
        } else {
            0
        }) + self.move_time * (mt as i32) + div_trunc(
            ((((self.jeopardy * pos(highest - 10)) as i32) * (if self.timed_jeopardy {
                mt as i32
            } else {
                10i32
            })) as i32) as int,
            10,
        )
    }

    /// The attack a placement counts towards a spike: the garbage it sent, or `-1` when it
    /// cleared nothing.
    pub open spec fn attack_spec(lock: LockResult) -> i32 {
        if lock.placement_kind.is_clear_spec() {
            lock.garbage_sent as i32
        } else {
            -1i32
        }
    }
}

/// Each line clear is rewarded with the weight named after its kind: two placements that differ
/// only in their kind (both clears, no perfect clear, a piece other than a T placed) differ in
/// reward by exactly the difference of those two weights. Against a single, for instance, a
/// triple earns `clear3 - clear1` more and a T-spin double `tspin2 - clear1` more.
pub proof fn lemma_clear_kind_reward(s: Standard, lock: LockResult, highest: int, move_time: int, placed: Piece)
    requires
        lock.placement_kind == PlacementKind::Clear1,
        !lock.perfect_clear,
        placed != Piece::T,
    ensures
        s.reward_spec(LockResult { placement_kind: PlacementKind::Clear2, ..lock }, highest, move_time, placed)
            == s.reward_spec(lock, highest, move_time, placed) - s.clear1 + s.clear2,
        s.reward_spec(LockResult { placement_kind: PlacementKind::Clear3, ..lock }, highest, move_time, placed)
            == s.reward_spec(lock, highest, move_time, placed) - s.clear1 + s.clear3,
        s.reward_spec(LockResult { placement_kind: PlacementKind::Clear4, ..lock }, highest, move_time, placed)
            == s.reward_spec(lock, highest, move_time, placed) - s.clear1 + s.clear4,
        s.reward_spec(LockResult { placement_kind: PlacementKind::Tspin1, ..lock }, highest, move_time, placed)
            == s.reward_spec(lock, highest, move_time, placed) - s.clear1 + s.tspin1,
        s.reward_spec(LockResult { placement_kind: PlacementKind::Tspin2, ..lock }, highest, move_time, placed)
            == s.reward_spec(lock, highest, move_time, placed) - s.clear1 + s.tspin2,
        s.reward_spec(LockResult { placement_kind: PlacementKind::Tspin3, ..lock }, highest, move_time, placed)
            == s.reward_spec(lock, highest, move_time, placed) - s.clear1 + s.tspin3,
        s.reward_spec(LockResult { placement_kind: PlacementKind::MiniTspin1, ..lock }, highest, move_time, placed)
            == s.reward_spec(lock, highest, move_time, placed) - s.clear1 + s.mini_tspin1,
        s.reward_spec(LockResult { placement_kind: PlacementKind::MiniTspin2, ..lock }, highest, move_time, placed)
            == s.reward_spec(lock, highest, move_time, placed) - s.clear1 + s.mini_tspin2,
{
}

/// A placement that clears nothing earns no line-clear weight: with no back to back and no
/// combo, placing without a clear is rewarded by the time it took and the height alone.
pub proof fn lemma_no_clear_reward(s: Standard, lock: LockResult, highest: int, move_time: int)
    requires
        lock.placement_kind == PlacementKind::NoClear,
        !lock.perfect_clear,
        !lock.b2b,
        lock.combo is None,
    ensures
        s.reward_spec(lock, highest, move_time, Piece::I) == s.move_time * (move_time as i32) + div_trunc(
            ((((s.jeopardy * pos(highest - 10)) as i32) * (if s.timed_jeopardy {
                move_time as i32
            } else {
                10i32
            })) as i32) as int,
            10,
        ),
{
}

impl Standard {
    /// What a line clear earns: back-to-back, combo garbage and the weight of its kind.
    fn clear_reward(&self, lock: &LockResult) -> (v: i64)
        ensures
            v as int == self.clear_reward_spec(*lock),
            -6 * 0x8000_0000 <= v <= 6 * 0x8000_0000,
    {
        let mut acc_eval: i64 = 0;
        if lock.b2b {
            acc_eval = acc_eval + self.b2b_clear as i64;
        }
        match lock.combo {
            Some(combo) => {
                let c: usize = if combo < 11 {
                    combo as usize
                } else {
                    11
                };
                let cg = combo_garbage(c);
                assert(cg <= 4);
                proof {
                    lemma_mul_wide(self.combo_garbage as int, cg as int, 4);
                }
                acc_eval = acc_eval + (self.combo_garbage as i64) * (cg as i64);
            },
            None => {},
        }
        let kind_weight: i32 = match lock.placement_kind {
            PlacementKind::Clear1 => self.clear1,
            PlacementKind::Clear2 => self.clear2,
            PlacementKind::Clear3 => self.clear3,
            PlacementKind::Clear4 => self.clear4,
            PlacementKind::Tspin1 => self.tspin1,
            PlacementKind::Tspin2 => self.tspin2,
            PlacementKind::Tspin3 => self.tspin3,
            PlacementKind::MiniTspin1 => self.mini_tspin1,
            PlacementKind::MiniTspin2 => self.mini_tspin2,
            _ => 0,
        };
        acc_eval + kind_weight as i64
    }

    /// What a placement earns, given the highest column top of the board it was made on: the
    /// sum that `reward_spec` describes, wrapped into `i32`.
    fn placement_reward(
        &self,
        lock: &LockResult,
        highest: i32,
        move_time: u32,
        placed: Piece,
    ) -> (r: Reward)
        requires
            0 <= highest <= 40,
        ensures
            r.value == self.reward_spec(*lock, highest as int, move_time as int, placed) as i32,
            r.attack == Self::attack_spec(*lock),
    {
        let mut acc_eval: i64 = 0;
        if lock.perfect_clear {
            acc_eval = acc_eval + self.perfect_clear as i64;
        }
        if self.stack_pc_damage || !lock.perfect_clear {
            acc_eval = acc_eval + self.clear_reward(lock);
        }
        if placed == Piece::T {
            match lock.placement_kind {
                PlacementKind::Tspin1 | PlacementKind::Tspin2 | PlacementKind::Tspin3 => {},
                _ => {
                    acc_eval = acc_eval + self.wasted_t as i64;
                },
            }
        }
        let is_clear = lock.placement_kind.is_clear();
        let mt_wide: i64 = if is_clear {
            move_time as i64 + 40
        } else {
            move_time as i64
        };
        let mt: i32 = #[verifier::truncate] (mt_wide as i32);
        proof {
            lemma_mul_wide(self.move_time as int, mt as int, 0x8000_0000);
        }
        acc_eval = acc_eval + (self.move_time as i64) * (mt as i64);
        let over: i32 = if highest - 10 > 0 {
            highest - 10
        } else {
            0
        };
        let factor: i32 = if self.timed_jeopardy {
            mt
        } else {
            10
        };
        proof {
            lemma_mul_wide(self.jeopardy as int, over as int, 30);
        }
        let danger: i32 = #[verifier::truncate] (((self.jeopardy as i64) * (over as i64)) as i32);
        proof {
            lemma_mul_wide(danger as int, factor as int, 0x8000_0000);
        }
        let scaled: i32 = #[verifier::truncate] (((danger as i64) * (factor as i64)) as i32);
        let jeopardy_term = scaled / 10;
        assert(jeopardy_term as int == div_trunc(scaled as int, 10));
        acc_eval = acc_eval + jeopardy_term as i64;
        let attack: i32 = if is_clear {
            lock.garbage_sent as i32
        } else {
            -1
        };
        Reward { value: #[verifier::truncate] (acc_eval as i32), attack }
    }
}

impl Standard {
    /// Fills the T-slots of a copy of the board one after another, as `tslot_phase` describes;
    /// gives the summed T-slot weights and the board left behind.
    fn fill_tslots(&self, board: &Board) -> (r: (i64, Board))
        requires
            board.wf(),
            tslot_fits(board.grid(), self.tslot_count(bag_back(board.bag_of(), board.queue()), board.hold_of())),
            board.combo_of() <= u32::MAX - 4,
        ensures
            r.0 as int == tslot_phase(
                self.tslot@,
                board.grid(),
                self.tslot_count(bag_back(board.bag_of(), board.queue()), board.hold_of()),
            ).0,
            r.1.grid() == tslot_phase(
                self.tslot@,
                board.grid(),
                self.tslot_count(bag_back(board.bag_of(), board.queue()), board.hold_of()),
            ).1,
            r.1.wf(),
            -3 * 0x8000_0000 <= r.0 <= 3 * 0x8000_0000,
    {
        let bag = board.next_bag();
        let held_t: usize = match board.held_piece() {
            Some(Piece::T) => 1,
            _ => 0,
        };
        let ts: usize = if self.use_bag {
            (if bag.contains(Piece::T) {
                1usize
            } else {
                0
            }) + (if bag.len() <= 3 {
                1usize
            } else {
                0
            }) + held_t
        } else {
            1 + held_t
        };
        let ghost n = self.tslot_count(bag_back(board.bag_of(), board.queue()), board.hold_of());
        assert(ts as int == n);
        let ghost total = tslot_phase(self.tslot@, board.grid(), n);
        let mut b = board.clone_board();
        let mut score: i64 = 0;
        let mut i: usize = 0;
        while i < ts
            invariant_except_break
                ts as int == n,
                ts <= 3,
                i <= ts,
                b.wf(),
                tslot_fits(b.grid(), n - i),
                b.combo_of() <= board.combo_of() + i,
                board.combo_of() <= u32::MAX - 4,
                score + tslot_phase(self.tslot@, b.grid(), n - i).0 == total.0,
                tslot_phase(self.tslot@, b.grid(), n - i).1 == total.1,
                -0x8000_0000 * i <= score <= 0x8000_0000 * i,
            ensures
                score == total.0,
                b.grid() == total.1,
                b.wf(),
                -3 * 0x8000_0000 <= score <= 3 * 0x8000_0000,
            decreases ts - i,
        {
            let location = cutout_location(&b);
            match location {
                None => {
                    break;
                },
                Some(p) => {
                    proof {
                        b.lemma_inv();
                        lemma_tslot_location_ok(b.grid());
                    }
                    let copy = b.clone_board();
                    let result = cutout_tslot(copy, p);
                    score = score + self.tslot[result.lines] as i64;
                    match result.result {
                        Some(nb) => {
                            b = nb;
                        },
                        None => {
                            break;
                        },
                    }
                },
            }
            i = i + 1;
        }
        (score, b)
    }
}

impl Standard {
    /// The score of the height of the stack and of its well; also gives the well.
    fn well_score(&self, board: &Board) -> (r: (i64, usize))
        requires
            board.wf(),
        ensures
            r.0 as int == self.well_score_spec(board.grid()),
            r.1 as int == well_column(board.grid(), 10),
            -0x4000_0000_0000_0000 - 41 * 0x8000_0000 <= r.0 <= 0x4000_0000_0000_0000 + 41 * 0x8000_0000,
    {
        let highest = highest_point(board);
        proof {
            lemma_mul_wide(self.height as int, highest as int, 40);
        }
        let mut v: i64 = (self.height as i64) * (highest as i64);
        let well = find_well(board);
        let raw = well_depth(board, well);
        let depth: i32 = if raw < self.max_well_depth {
            raw
        } else {
            self.max_well_depth
        };
        proof {
            lemma_mul_wide(self.well_depth as int, depth as int, 0x8000_0000);
        }
        v = v + (self.well_depth as i64) * (depth as i64);
        if depth != 0 {
            v = v + self.well_column[well] as i64;
        }
        (v, well)
    }

    /// The score of the row transitions; skipped when its weight is zero.
    fn transitions_score(&self, board: &Board) -> (v: i64)
        requires
            board.wf(),
        ensures
            v as int == self.transitions_score_spec(board.grid()),
            -640 * 0x8000_0000 <= v <= 640 * 0x8000_0000,
    {
        let ghost t = sum_range(0, 40, |y: int| row_transitions_spec(board.grid()[y]));
        if self.row_transitions != 0 {
            let rt = row_transitions(board);
            proof {
                lemma_mul_wide(self.row_transitions as int, rt as int, 640);
            }
            (self.row_transitions as i64) * (rt as i64)
        } else {
            assert(self.row_transitions * t == 0) by (nonlinear_arith)
                requires
                    self.row_transitions == 0,
            ;
            0
        }
    }

    /// The score of the bumpiness outside the well; skipped when both its weights are zero.
    fn bumpiness_score(&self, board: &Board, well: usize) -> (v: i64)
        requires
            board.wf(),
            well as int == well_column(board.grid(), 10),
        ensures
            v as int == self.bumpiness_score_spec(board.grid()),
            -16400 * 0x8000_0000 <= v <= 16400 * 0x8000_0000,
    {
        proof {
            crate::evaluation::features::lemma_well_column_range(board.grid(), 10);
        }
        let bw = self.bumpiness;
        let bsw = self.bumpiness_sq;
        assert(((bw | bsw) != 0) == (bw != 0 || bsw != 0)) by (bit_vector);
        if (self.bumpiness | self.bumpiness_sq) != 0 {
            let (bump, bump_sq) = bumpiness(board, well);
            proof {
                lemma_mul_wide(self.bumpiness as int, bump as int, 400);
                lemma_mul_wide(self.bumpiness_sq as int, bump_sq as int, 16000);
            }
            (bump as i64) * (self.bumpiness as i64) + (bump_sq as i64) * (self.bumpiness_sq as i64)
        } else {
            let ghost bs = bumpiness_spec(board.grid(), well as int);
            assert(bs.0 * bw == 0 && bs.1 * bsw == 0) by (nonlinear_arith)
                requires
                    bw == 0,
                    bsw == 0,
            ;
            0
        }
    }

    /// The score of the cavities and overhangs; skipped when all four of its weights are zero.
    fn holes_score(&self, board: &Board) -> (v: i64)
        requires
            board.wf(),
        ensures
            v as int == self.holes_score_spec(board.grid()),
            -321_000 * 0x8000_0000 <= v <= 321_000 * 0x8000_0000,
    {
        let cw = self.cavity_cells;
        let csw = self.cavity_cells_sq;
        let ow = self.overhang_cells;
        let osw = self.overhang_cells_sq;
        assert(((cw | csw | ow | osw) != 0) == (cw != 0 || csw != 0 || ow != 0 || osw != 0))
            by (bit_vector);
        if (self.cavity_cells | self.cavity_cells_sq | self.overhang_cells
            | self.overhang_cells_sq) != 0 {
            let (cavities, overhangs) = cavities_and_overhangs(board);
            proof {
                lemma_mul_wide(self.cavity_cells as int, cavities as int, 400);
                lemma_mul_wide(self.overhang_cells as int, overhangs as int, 400);
                lemma_mul_wide(self.cavity_cells_sq as int, cavities as int, 400);
                lemma_mul_wide(self.overhang_cells_sq as int, overhangs as int, 400);
                assert(-0x8000_0000 * 160_000 <= self.cavity_cells_sq * cavities * cavities
                    <= 0x8000_0000 * 160_000 && -0x8000_0000 * 160_000
                    <= self.overhang_cells_sq * overhangs * overhangs <= 0x8000_0000 * 160_000) by (nonlinear_arith)
                    requires
                        -0x8000_0000 <= self.cavity_cells_sq < 0x8000_0000,
                        -0x8000_0000 <= self.overhang_cells_sq < 0x8000_0000,
                        0 <= cavities <= 400,
                        0 <= overhangs <= 400,
                ;
            }
            let mut v: i64 = (self.cavity_cells as i64) * (cavities as i64);
            v = v + (self.cavity_cells_sq as i64) * (cavities as i64) * (cavities as i64);
            v = v + (self.overhang_cells as i64) * (overhangs as i64);
            v = v + (self.overhang_cells_sq as i64) * (overhangs as i64) * (overhangs as i64);
            v
        } else {
            let ghost h = holes_spec(board.grid());
            assert(cw * h.0 == 0 && csw * h.0 * h.0 == 0 && ow * h.1 == 0 && osw * h.1 * h.1 == 0)
                by (nonlinear_arith)
                requires
                    cw == 0,
                    csw == 0,
                    ow == 0,
                    osw == 0,
            ;
            0
        }
    }

    /// The score of how covered the holes are; skipped when both its weights are zero.
    fn covered_score(&self, board: &Board) -> (v: i64)
        requires
            board.wf(),
        ensures
            v as int == self.covered_score_spec(board.grid()),
            -16400 * 0x8000_0000 <= v <= 16400 * 0x8000_0000,
    {
        let kw = self.covered_cells;
        let ksw = self.covered_cells_sq;
        assert(((kw | ksw) != 0) == (kw != 0 || ksw != 0)) by (bit_vector);
        if (self.covered_cells | self.covered_cells_sq) != 0 {
            let (covered, covered_sq) = covered_cells(board);
            proof {
                lemma_mul_wide(self.covered_cells as int, covered as int, 400);
                lemma_mul_wide(self.covered_cells_sq as int, covered_sq as int, 16000);
            }
            (self.covered_cells as i64) * (covered as i64) + (self.covered_cells_sq as i64) * (covered_sq as i64)
        } else {
            let ghost c = covered_spec(board.grid());
            assert(kw * c.0 == 0 && ksw * c.1 == 0) by (nonlinear_arith)
                requires
                    kw == 0,
                    ksw == 0,
            ;
            0
        }
    }

    /// The score of the shape of the stack, as `shape_spec` describes.
    fn shape_score(&self, board: &Board) -> (v: i64)
        requires
            board.wf(),
        ensures
            v as int == self.shape_spec(board.grid()),
            -0x4000_0000_0000_0000 - 400_000 * 0x8000_0000 <= v <= 0x4000_0000_0000_0000 + 400_000 * 0x8000_0000,
    {
        let (w, well) = self.well_score(board);
        let t = self.transitions_score(board);
        let b = self.bumpiness_score(board, well);
        let h = self.holes_score(board);
        let c = self.covered_score(board);
        w + t + b + h + c
    }
}

impl Standard {
    /// Evaluates a placement: the value of the board it leaves (`transient_spec`, with no spike)
    /// and the reward the placement itself earns (`reward_spec`, with `attack_spec` as its
    /// attack), each wrapped into `i32` as two's-complement arithmetic leaves it.
    ///
    /// The T-slots the evaluation fills on the board must each complete at most three rows,
    /// which holds on any board a lock left behind; the combo counter leaves room for them.
    pub fn evaluate(
        &self,
        lock: &LockResult,
        board: &Board,
        move_time: u32,
        placed: Piece,
    ) -> (r: (Value, Reward))
        requires
            board.wf(),
            tslot_fits(board.grid(), self.tslot_count(bag_back(board.bag_of(), board.queue()), board.hold_of())),
            board.combo_of() <= u32::MAX - 4,
        ensures
            r.0.value == self.transient_spec(board) as i32,
            r.0.spike == 0,
            r.1.value == self.reward_spec(
                *lock,
                max_height(board.grid(), 10),
                move_time as int,
                placed,
            ) as i32,
            r.1.attack == Self::attack_spec(*lock),
    {
        let highest = highest_point(board);
        let reward = self.placement_reward(lock, highest, move_time, placed);
        let mut transient_eval: i64 = 0;
        if board.has_back_to_back_active() {
            transient_eval = self.back_to_back as i64;
        }
        let quarter: i32 = if highest - 15 > 0 {
            highest - 15
        } else {
            0
        };
        let half: i32 = if highest - 10 > 0 {
            highest - 10
        } else {
            0
        };
        proof {
            lemma_mul_wide(self.top_quarter as int, quarter as int, 25);
            lemma_mul_wide(self.top_half as int, half as int, 30);
        }
        transient_eval = transient_eval + (self.top_quarter as i64) * (quarter as i64);
        transient_eval = transient_eval + (self.top_half as i64) * (half as i64);
        let (tslots, after) = self.fill_tslots(board);
        transient_eval = transient_eval + tslots;
        let shape = self.shape_score(&after);
        transient_eval = transient_eval + shape;
        (Value { value: #[verifier::truncate] (transient_eval as i32), spike: 0 }, reward)
    }
}

/// The name of the evaluator: `Standard`, followed on a new line by the name of the weights
/// when they have one.
pub open spec fn standard_name(sub_name: Option<String>) -> Seq<char> {
    match sub_name {
        Some(extra) => "Standard"@ + "\n"@ + extra@,
        None => "Standard"@,
    }
}

/// A candidate that the incoming garbage would not push above row 20 in the middle columns.
pub open spec fn safe_candidate(c: MoveCandidate<Value>, incoming: u32) -> bool {
    incoming == 0 || forall|x: int|
        3 <= x < 6 ==> (incoming as i32) - (c.lock.garbage_sent as i32) + #[trigger] c.board.height(x)
            <= 20
}

impl Standard {
    /// The name of the evaluator.
    pub fn name(&self) -> (n: String)
        ensures
            n@ == standard_name(self.sub_name),
    {
        let mut info = "Standard".to_string();
        match &self.sub_name {
            Some(extra) => {
                info.append("\n");
                info.append(extra.as_str());
            },
            None => {},
        }
        info
    }
}

/// `k` is the candidate that `pick_move` picks: the first safe one, or, when none is safe, the
/// first of those with the largest spike.
pub open spec fn is_pick(cands: Seq<MoveCandidate<Value>>, incoming: u32, k: int) -> bool {
    &&& 0 <= k < cands.len()
    &&& {
        ||| safe_candidate(cands[k], incoming) && forall|j: int|
            0 <= j < k ==> !safe_candidate(#[trigger] cands[j], incoming)
        ||| (forall|j: int| 0 <= j < cands.len() ==> !safe_candidate(#[trigger] cands[j], incoming))
            && (forall|j: int|
            0 <= j < cands.len() ==> (#[trigger] cands[j]).evaluation.spike
                <= cands[k].evaluation.spike) && (forall|j: int|
            0 <= j < k ==> (#[trigger] cands[j]).evaluation.spike < cands[k].evaluation.spike)
    }
}

/// Whether the incoming garbage leaves the middle columns of the candidate at or below row 20.
fn is_safe(c: &MoveCandidate<Value>, incoming: u32) -> (b: bool)
    ensures
        b == safe_candidate(*c, incoming),
{
    if incoming == 0 {
        return true;
    }
    let heights = c.board.column_heights();
    let sent = (c.lock.garbage_sent as i32) as i64;
    let inc = (incoming as i32) as i64;
    let mut x: usize = 3;
    while x < 6
        invariant
            3 <= x <= 6,
            incoming != 0,
            sent == c.lock.garbage_sent as i32,
            inc == incoming as i32,
            forall|k: int| 0 <= k < 10 ==> #[trigger] heights@[k] as int == c.board.height(k),
            forall|xx: int| 3 <= xx < x ==> inc - sent + #[trigger] c.board.height(xx) <= 20,
        decreases 6 - x,
    {
        if inc - sent + heights[x] as i64 > 20 {
            return false;
        }
        x = x + 1;
    }
    true
}

impl Standard {
    /// Picks the first candidate that is safe against the incoming garbage; when none is, the
    /// first of those with the largest spike.
    pub fn pick_move(&self, candidates: Vec<MoveCandidate<Value>>, incoming: u32) -> (r:
        MoveCandidate<Value>)
        requires
            candidates.len() > 0,
        ensures
            exists|k: int| is_pick(candidates@, incoming, k) && r == candidates@[k],
    {
        let mut backup: usize = 0;
        let mut i: usize = 0;
        while i < candidates.len()
            invariant
                i <= candidates.len(),
                candidates.len() > 0,
                backup < candidates.len(),
                backup <= i,
                forall|j: int| 0 <= j < i ==> !safe_candidate(#[trigger] candidates@[j], incoming),
                forall|j: int|
                    0 <= j < i ==> (#[trigger] candidates@[j]).evaluation.spike
                        <= candidates@[backup as int].evaluation.spike,
                forall|j: int|
                    0 <= j < backup ==> (#[trigger] candidates@[j]).evaluation.spike
                        < candidates@[backup as int].evaluation.spike,
            decreases candidates.len() - i,
        {
            if is_safe(&candidates[i], incoming) {
                let mut rest = candidates;
                let r = rest.swap_remove(i);
                assert(is_pick(candidates@, incoming, i as int));
                return r;
            }
            if i > 0 && candidates[backup].evaluation.spike < candidates[i].evaluation.spike {
                backup = i;
            }
            i = i + 1;
        }
        assert(is_pick(candidates@, incoming, backup as int));
        let mut rest = candidates;
        rest.swap_remove(backup)
    }
}

} // verus!
