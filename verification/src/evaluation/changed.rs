use vstd::prelude::*;
use vstd::string::StringExecFns;
use crate::board::{Board, occ_grid};
use crate::evaluation::features::{
    bumpiness, bumpiness_spec, covered_cells, covered_spec, highest_point, hgt, lemma_board_heights,
    max_height,
};
use crate::evaluation::holes::{cavities_and_overhangs, region_counts};
use crate::evaluation::standard::{cutout_tslot, lemma_mul_wide, lemma_shaped_after};
use crate::evaluation::shapes::{
    cave_spec, cave_tslot, lemma_clear_lines_not_full, lemma_full_rows_skip, lemma_t_clears_at_most_three,
    lemma_t_offsets, no_full_rows, on_field, shaped, t_piece,
};
use crate::board::{
    clear_lines, collides_g, empty_row, full_rows, kept_rows, lemma_kept_full_len, placed_grid, row_empty, row_full,
};
use crate::piece::{
    FallingPiece, LockResult, Piece, PieceState, PlacementKind, RotationState, TspinStatus,
    combo_garbage, combo_garbage_spec,
};

verus! {

/// One set of weights of the evaluator that plays aggressively or defensively.
#[derive(Clone, Debug, PartialEq)]
pub struct Weights {
    pub back_to_back: i32,
    pub bumpiness: i32,
    pub bumpiness_sq: i32,
    pub height_before: i32,
    pub height_after: i32,
    pub cavity_cells: i32,
    pub cavity_cells_sq: i32,
    pub overhang_cells: i32,
    pub overhang_cells_sq: i32,
    pub covered_cells: i32,
    pub covered_cells_sq: i32,
    pub tslot: [i32; 4],
    pub well_depth: i32,
    pub b2b_clear: i32,
    pub clear1: i32,
    pub clear2: i32,
    pub clear3: i32,
    pub clear4: i32,
    pub tspin1: i32,
    pub tspin2: i32,
    pub tspin3: i32,
    pub mini_tspin1: i32,
    pub mini_tspin2: i32,
    pub perfect_clear: i32,
    pub combo_table: [i32; 12],
    pub move_time: i32,
}

/// A spot where a T can twist into a triple slot: which way it points, whether the slot has
/// enough corners to count as a T-spin, and where the T goes.
#[derive(Copy, Clone, Debug, PartialEq, Eq, Structural)]
pub struct TstTwist {
    pub point_left: bool,
    pub is_tslot: bool,
    pub x: i32,
    pub y: i32,
}

impl TstTwist {
    /// The T piece placed at the twist spot: pointing east when the slot opens to the left,
    /// west otherwise, and a full T-spin when the spot is a T-slot.
    pub fn piece(&self) -> (p: FallingPiece)
        ensures
            p == (FallingPiece {
                kind: PieceState(
                    Piece::T,
                    if self.point_left {
                        RotationState::East
                    } else {
                        RotationState::West
                    },
                ),
                x: self.x,
                y: self.y,
                tspin: if self.is_tslot {
                    TspinStatus::Full
                } else {
                    TspinStatus::NoSpin
                },
            }),
    {
        let orientation = if self.point_left {
            RotationState::East
        } else {
            RotationState::West
        };
        FallingPiece {
            kind: PieceState(Piece::T, orientation),
            x: self.x,
            y: self.y,
            tspin: if self.is_tslot {
                TspinStatus::Full
            } else {
                TspinStatus::NoSpin
            },
        }
    }
}

/// `1` when cell `(x, y)` is filled or off the playfield, `0` otherwise.
pub open spec fn filled_count(g: Seq<Seq<bool>>, x: int, y: int) -> int {
    if occ_grid(g, x, y) {
        1
    } else {
        0
    }
}

/// The twist spot in the window of columns `x..x + 3`, if it has one.
pub open spec fn twist_at(g: Seq<Seq<bool>>, x: int) -> Option<TstTwist> {
    let (l, m, r) = (hgt(g, x), hgt(g, x + 1), hgt(g, x + 2));
    if l > m && m >= r {
        if occ_grid(g, x, m + 1) && !occ_grid(g, x, m) && !occ_grid(g, x, m - 1) && !occ_grid(
            g,
            x,
            m - 2,
        ) && !occ_grid(g, x + 1, m - 2) && !occ_grid(g, x, m - 3) {
            Some(
                TstTwist {
                    point_left: false,
                    x: x as i32,
                    y: (m - 2) as i32,
                    is_tslot: filled_count(g, x - 1, m - 1) + filled_count(g, x - 1, m - 3)
                        + filled_count(g, x + 1, m - 3) >= 2,
                },
            )
        } else {
            None
        }
    } else if r > m && m >= l {
        if occ_grid(g, x + 2, m + 1) && !occ_grid(g, x + 2, m) && !occ_grid(g, x + 2, m - 1)
            && !occ_grid(g, x + 2, m - 2) && !occ_grid(g, x + 1, m - 2) && !occ_grid(
            g,
            x + 2,
            m - 3,
        ) {
            Some(
                TstTwist {
                    point_left: true,
                    x: (x + 2) as i32,
                    y: (m - 2) as i32,
                    is_tslot: filled_count(g, x + 1, m - 3) + filled_count(g, x + 3, m - 1)
                        + filled_count(g, x + 3, m - 3) >= 2,
                },
            )
        } else {
            None
        }
    } else {
        None
    }
}

/// The first twist spot among the windows from column `x` on.
pub open spec fn twist_scan(g: Seq<Seq<bool>>, x: int) -> Option<TstTwist>
    decreases 8 - x,
{
    if x >= 8 {
        None
    } else {
        match twist_at(g, x) {
            Some(t) => Some(t),
            None => twist_scan(g, x + 1),
        }
    }
}

/// `1` when `b` holds, `0` otherwise.
fn count_if(b: bool) -> (v: u32)
    ensures
        v == (if b {
            1u32
        } else {
            0u32
        }),
{
    if b {
        1
    } else {
        0
    }
}

/// The twist spot in the window of columns `x..x + 3`, if it has one.
fn twist_in_window(board: &Board, x: i32) -> (t: Option<TstTwist>)
    requires
        board.wf(),
        0 <= x < 8,
    ensures
        t == twist_at(board.grid(), x as int),
{
    proof {
        lemma_board_heights(board);
    }
    let hs = board.column_heights();
    let xu = x as usize;
    let left_h = hs[xu];
    let middle_h = hs[xu + 1];
    let right_h = hs[xu + 2];
    if left_h > middle_h && middle_h >= right_h {
        let is_tst_slot = board.occupied(x, middle_h + 1) && !board.occupied(x, middle_h)
            && !board.occupied(x, middle_h - 1) && !board.occupied(x, middle_h - 2)
            && !board.occupied(x + 1, middle_h - 2) && !board.occupied(x, middle_h - 3);
        if is_tst_slot {
            let corners = count_if(board.occupied(x - 1, middle_h - 1)) + count_if(
                board.occupied(x - 1, middle_h - 3),
            ) + count_if(board.occupied(x + 1, middle_h - 3));
            return Some(TstTwist { point_left: false, x, y: middle_h - 2, is_tslot: corners >= 2 });
        }
    } else if right_h > middle_h && middle_h >= left_h {
        let is_tst_slot = board.occupied(x + 2, middle_h + 1) && !board.occupied(x + 2, middle_h)
            && !board.occupied(x + 2, middle_h - 1) && !board.occupied(x + 2, middle_h - 2)
            && !board.occupied(x + 1, middle_h - 2) && !board.occupied(x + 2, middle_h - 3);
        if is_tst_slot {
            let corners = count_if(board.occupied(x + 1, middle_h - 3)) + count_if(
                board.occupied(x + 3, middle_h - 1),
            ) + count_if(board.occupied(x + 3, middle_h - 3));
            return Some(
                TstTwist { point_left: true, x: x + 2, y: middle_h - 2, is_tslot: corners >= 2 },
            );
        }
    }
    None
}

/// Finds the first reachable triple twist spot, scanning windows of three columns from the
/// left.
pub fn tst_twist(board: &Board) -> (t: Option<TstTwist>)
    requires
        board.wf(),
    ensures
        t == twist_scan(board.grid(), 0),
{
    let mut x: i32 = 0;
    while x < 8
        invariant
            board.wf(),
            0 <= x <= 8,
            twist_scan(board.grid(), 0) == twist_scan(board.grid(), x as int),
        decreases 8 - x,
    {
        let t = twist_in_window(board, x);
        if t.is_some() {
            return t;
        }
        x = x + 1;
    }
    None
}


/// How deep the search looks ahead when it plays aggressively or defensively, and how it
/// weighs the two.
#[derive(Copy, Clone, Debug, PartialEq, Eq)]
pub struct SearchOptions {
    pub aggressive_height: i32,
    pub defensive_height: i32,
    pub gamma: (i32, i32),
}

/// An evaluation by both sets of weights: what the placements so far have earned, and what the
/// board they left is worth.
#[derive(Copy, Clone, Debug, PartialEq, Eq)]
pub struct Evaluation {
    pub aggressive_accumulated: i32,
    pub aggressive_transient: i32,
    pub defensive_accumulated: i32,
    pub defensive_transient: i32,
}

/// An evaluator that weighs every position twice, once to play aggressively and once to play
/// defensively.
#[derive(Clone, Debug, PartialEq)]
pub struct Standard {
    pub aggressive: Weights,
    pub defensive: Weights,
    pub search_options: SearchOptions,
    pub sub_name: Option<String>,
}

/// The weight of a placement kind.
pub open spec fn kind_weight(w: Weights, k: PlacementKind) -> int {
    match k {
        PlacementKind::Clear1 => w.clear1 as int,
        PlacementKind::Clear2 => w.clear2 as int,
        PlacementKind::Clear3 => w.clear3 as int,
        PlacementKind::Clear4 => w.clear4 as int,
        PlacementKind::Tspin1 => w.tspin1 as int,
        PlacementKind::Tspin2 => w.tspin2 as int,
        PlacementKind::Tspin3 => w.tspin3 as int,
        PlacementKind::MiniTspin1 => w.mini_tspin1 as int,
        PlacementKind::MiniTspin2 => w.mini_tspin2 as int,
        _ => 0,
    }
}

/// What a placement that is no perfect clear earns by one set of weights: its back-to-back
/// bonus, its combo and its kind.
pub open spec fn lock_weight(w: Weights, lock: LockResult) -> int {
    (if lock.b2b {
        w.b2b_clear as int
    } else {
        0
    }) + match lock.combo {
        Some(c) => w.combo_table@[if c < 11 {
            c as int
        } else {
            11
        }] as int,
        None => 0,
    } + kind_weight(w, lock.placement_kind)
}

/// The cost of the time a placement takes, with allowance for the spawn delay and, after a
/// clear, the line clear delay.
pub open spec fn time_weight(w: Weights, lock: LockResult, move_time: int) -> int {
    w.move_time * ((if lock.placement_kind.is_clear_spec() {
        move_time + 10 + 45
    } else {
        move_time + 10
    }) as i32)
}

impl Standard {
    /// What the placement earned by the aggressive weights. A perfect clear earns the perfect
    /// clear weights of both sets here.
    pub open spec fn aggressive_accumulated_spec(&self, lock: LockResult, move_time: int) -> int {
        (if lock.perfect_clear {
            self.aggressive.perfect_clear + self.defensive.perfect_clear
        } else {
            lock_weight(self.aggressive, lock)
        }) + time_weight(self.aggressive, lock, move_time)
    }

    /// What the placement earned by the defensive weights.
    pub open spec fn defensive_accumulated_spec(&self, lock: LockResult, move_time: int) -> int {
        (if lock.perfect_clear {
            0
        } else {
            lock_weight(self.defensive, lock)
        }) + time_weight(self.defensive, lock, move_time)
    }

    /// The default weights and search options.
    pub fn default() -> (s: Standard)
        ensures
            s.aggressive.height_after == -40,
            s.defensive.height_after == -70,
            forall|i: int| 0 <= i < 12 ==> #[trigger] s.aggressive.combo_table@[i] == combo_garbage_spec(i) * 100,
            forall|i: int| 0 <= i < 12 ==> #[trigger] s.defensive.combo_table@[i] == combo_garbage_spec(i) * 100,
            s.search_options == (SearchOptions { aggressive_height: 6, defensive_height: 14, gamma: (1, 1) }),
            s.sub_name is None,
    {
        let table = combo_table();
        Standard {
            aggressive: Weights {
                back_to_back: 50,
                bumpiness: -10,
                bumpiness_sq: -5,
                height_before: -10,
                height_after: -40,
                cavity_cells: -150,
                cavity_cells_sq: -10,
                overhang_cells: -50,
                overhang_cells_sq: -10,
                covered_cells: -8,
                covered_cells_sq: -1,
                tslot: [20, 150, 200, 400],
                well_depth: 50,
                move_time: -1,
                b2b_clear: 100,
                clear1: -150,
                clear2: -100,
                clear3: -50,
                clear4: 400,
                tspin1: 130,
                tspin2: 400,
                tspin3: 600,
                mini_tspin1: -150,
                mini_tspin2: -100,
                perfect_clear: 1000,
                combo_table: table,
            },
            defensive: Weights {
                back_to_back: 50,
                bumpiness: -10,
                bumpiness_sq: -5,
                height_before: -70,
                height_after: -70,
                cavity_cells: -150,
                cavity_cells_sq: -10,
                overhang_cells: -50,
                overhang_cells_sq: -10,
                covered_cells: -8,
                covered_cells_sq: -1,
                tslot: [0, 150, 200, 400],
                well_depth: 30,
                move_time: -1,
                b2b_clear: 100,
                clear1: -100,
                clear2: -100,
                clear3: -50,
                clear4: 400,
                tspin1: 130,
                tspin2: 400,
                tspin3: 600,
                mini_tspin1: -150,
                mini_tspin2: -100,
                perfect_clear: 1000,
                combo_table: table,
            },
            search_options: SearchOptions { aggressive_height: 6, defensive_height: 14, gamma: (1, 1) },
            sub_name: None,
        }
    }

    /// The name of the evaluator: `Changed`, followed on a new line by the name of the weights
    /// when they have one.
    pub fn name(&self) -> (n: String)
        ensures
            n@ == match self.sub_name {
                Some(extra) => "Changed"@ + "\n"@ + extra@,
                None => "Changed"@,
            },
    {
        let mut info = "Changed".to_string();
        match &self.sub_name {
            Some(extra) => {
                info.append("\n");
                info.append(extra.as_str());
            },
            None => {},
        }
        info
    }

    /// The search options the evaluator asks for.
    pub fn search_options(&self) -> (o: SearchOptions)
        ensures
            o == self.search_options,
    {
        self.search_options
    }
}

/// The combo weights: the garbage a combo sends, a hundred for each line.
fn combo_table() -> (t: [i32; 12])
    ensures
        forall|i: int| 0 <= i < 12 ==> #[trigger] t@[i] == combo_garbage_spec(i) * 100,
        forall|i: int| 0 <= i < 12 ==> 0 <= #[trigger] t@[i] <= 500,
{
    let mut t: [i32; 12] = [0; 12];
    let mut i: usize = 0;
    while i < 12
        invariant
            i <= 12,
            forall|k: int| 0 <= k < i ==> #[trigger] t@[k] == combo_garbage_spec(k) * 100,
            forall|k: int| 0 <= k < i ==> 0 <= #[trigger] t@[k] <= 500,
        decreases 12 - i,
    {
        let g = combo_garbage(i);
        assert(g <= 5);
        t[i] = g as i32 * 100;
        i = i + 1;
    }
    t
}

/// What a placement earns by one set of weights, leaving out a perfect clear.
fn lock_weight_exec(w: &Weights, lock: &LockResult) -> (v: i64)
    ensures
        v == lock_weight(*w, *lock),
        -3 * 0x8000_0000 <= v <= 3 * 0x8000_0000,
{
    let mut v: i64 = 0;
    if lock.b2b {
        v = v + w.b2b_clear as i64;
    }
    match lock.combo {
        Some(c) => {
            let i: usize = if c < 11 {
                c as usize
            } else {
                11
            };
            v = v + w.combo_table[i] as i64;
        },
        None => {},
    }
    let k: i32 = match lock.placement_kind {
        PlacementKind::Clear1 => w.clear1,
        PlacementKind::Clear2 => w.clear2,
        PlacementKind::Clear3 => w.clear3,
        PlacementKind::Clear4 => w.clear4,
        PlacementKind::Tspin1 => w.tspin1,
        PlacementKind::Tspin2 => w.tspin2,
        PlacementKind::Tspin3 => w.tspin3,
        PlacementKind::MiniTspin1 => w.mini_tspin1,
        PlacementKind::MiniTspin2 => w.mini_tspin2,
        _ => 0,
    };
    v + k as i64
}

/// The cost of the time a placement takes by one set of weights; the time with its allowance
/// wraps into `i32` as the cast does.
fn time_weight_exec(w: &Weights, lock: &LockResult, move_time: u32) -> (v: i64)
    ensures
        v == time_weight(*w, *lock, move_time as int),
        -0x4000_0000_0000_0000 <= v <= 0x4000_0000_0000_0000,
{
    let wide: i64 = if lock.placement_kind.is_clear() {
        move_time as i64 + 10 + 45
    } else {
        move_time as i64 + 10
    };
    let t: i32 = #[verifier::truncate] (wide as i32);
    proof {
        lemma_mul_wide(w.move_time as int, t as int, 0x8000_0000);
    }
    (w.move_time as i64) * (t as i64)
}


/// The piece a twist spot gives.
pub open spec fn twist_piece(t: TstTwist) -> FallingPiece {
    FallingPiece {
        kind: PieceState(Piece::T, if t.point_left {
            RotationState::East
        } else {
            RotationState::West
        }),
        x: t.x,
        y: t.y,
        tspin: if t.is_tslot {
            TspinStatus::Full
        } else {
            TspinStatus::NoSpin
        },
    }
}

/// The T-slot open to the sky in the window of columns `x` and `x + 1`, by the column left of
/// the slot: a step down to the right with an overhang two columns right, or a step down to
/// the left with an overhang one column left.
pub open spec fn sky_at(g: Seq<Seq<bool>>, x: int) -> Option<(int, int)> {
    let (l, r) = (hgt(g, x), hgt(g, x + 1));
    if l > r {
        if occ_grid(g, x + 2, l + 1) && !occ_grid(g, x + 2, l) && occ_grid(g, x + 2, l - 1) {
            Some((x + 1, l))
        } else {
            None
        }
    } else if r > l {
        if occ_grid(g, x - 1, r + 1) && !occ_grid(g, x - 1, r) && occ_grid(g, x - 1, r - 1) {
            Some((x, r))
        } else {
            None
        }
    } else {
        None
    }
}

/// Row `cy` is filled outside the columns `x - 1 ..= x + 1` of a slot.
pub open spec fn full_outside(g: Seq<Seq<bool>>, x: int, cy: int) -> bool {
    forall|rx: int| 0 <= rx < 10 && (rx < x - 1 || rx > x + 1) ==> #[trigger] occ_grid(g, rx, cy)
}

/// How many of the two rows under a slot centred at `(x, y)` (rows `y - 1` and `y`) are filled
/// outside the slot's three columns: the lines the slot would clear.
pub open spec fn fill_spec(g: Seq<Seq<bool>>, x: int, y: int) -> int {
    (if full_outside(g, x, y - 1) {
        1int
    } else {
        0
    }) + (if full_outside(g, x, y) {
        1int
    } else {
        0
    })
}

/// The lines filled under the sky T-slot of window `w`, if it has one.
pub open spec fn sky_fill(g: Seq<Seq<bool>>, w: int) -> int {
    match sky_at(g, w) {
        Some((sx, sy)) => fill_spec(g, sx, sy),
        None => 0,
    }
}

/// Among the sky T-slots of the first `n` windows, the one with the most lines filled, the
/// leftmost of those: its fill and its place.
pub open spec fn sky_fold(g: Seq<Seq<bool>>, n: int) -> Option<(int, int, int)>
    decreases n,
{
    if n <= 0 {
        None
    } else {
        let prev = sky_fold(g, n - 1);
        match sky_at(g, n - 1) {
            None => prev,
            Some((sx, sy)) => {
                let f = fill_spec(g, sx, sy);
                match prev {
                    None => Some((f, sx, sy)),
                    Some((pf, px, py)) => if f > pf {
                        Some((f, sx, sy))
                    } else {
                        Some((pf, px, py))
                    },
                }
            },
        }
    }
}

/// The sky T-slot with the most lines filled, the leftmost of those.
pub open spec fn sky_pick(g: Seq<Seq<bool>>) -> Option<(int, int)> {
    match sky_fold(g, 9) {
        Some((_, x, y)) => Some((x, y)),
        None => None,
    }
}

/// What `sky_fold` keeps: nothing exactly when no window has a slot; otherwise a slot of some
/// window, at least as full as every slot, and fuller than every slot of an earlier window.
proof fn lemma_sky_fold(g: Seq<Seq<bool>>, n: int)
    requires
        0 <= n,
    ensures
        sky_fold(g, n) is None <==> forall|w: int| 0 <= w < n ==> #[trigger] sky_at(g, w) is None,
        sky_fold(g, n) matches Some((f, x, y)) ==> f == fill_spec(g, x, y) && exists|w: int|
            0 <= w < n && #[trigger] sky_at(g, w) == Some((x, y)) && forall|w2: int|
                0 <= w2 < n && #[trigger] sky_at(g, w2) is Some ==> sky_fill(g, w2) <= f
                    && (w2 < w ==> sky_fill(g, w2) < f),
    decreases n,
{
    if n > 0 {
        lemma_sky_fold(g, n - 1);
        let prev = sky_fold(g, n - 1);
        match sky_at(g, n - 1) {
            None => {
                if prev is None {
                    assert forall|w: int| 0 <= w < n implies #[trigger] sky_at(g, w) is None by {
                        if w < n - 1 {
                        }
                    }
                }
            },
            Some((sx, sy)) => {
                let f = fill_spec(g, sx, sy);
                match prev {
                    None => {
                        assert(sky_at(g, n - 1) == Some((sx, sy)));
                    },
                    Some((pf, px, py)) => {
                        let w = choose|w: int|
                            0 <= w < n - 1 && #[trigger] sky_at(g, w) == Some((px, py)) && forall|w2: int|
                                0 <= w2 < n - 1 && #[trigger] sky_at(g, w2) is Some ==> sky_fill(g, w2) <= pf
                                    && (w2 < w ==> sky_fill(g, w2) < pf);
                        if f > pf {
                            assert(sky_at(g, n - 1) == Some((sx, sy)));
                        } else {
                            assert(sky_at(g, w) == Some((px, py)));
                        }
                    },
                }
            },
        }
    }
}

/// Some cell right below a cell of `p` is filled or off the playfield.
pub open spec fn on_stack_spec(g: Seq<Seq<bool>>, p: FallingPiece) -> bool {
    exists|i: int| 0 <= i < 4 && occ_grid(g, p.cell(i).0, p.cell(i).1 - 1)
}

/// The T that fills a triple twist spot: the one pointing against the spot's opening where it
/// fits, the other otherwise.
pub open spec fn tst_choice(g: Seq<Seq<bool>>, t: TstTwist) -> FallingPiece {
    let left = t_piece(RotationState::East, t.x as int, t.y as int);
    let right = t_piece(RotationState::West, t.x as int, t.y as int);
    let (imperial, normal) = if t.point_left {
        (right, left)
    } else {
        (left, right)
    };
    if !collides_g(g, imperial, 0, 0) {
        imperial
    } else {
        normal
    }
}

/// Where the next T-slot is filled: a sky slot, else the cave under a twist spot, else the
/// twist spot itself when it is a T-slot resting on the stack.
pub open spec fn next_cut(g: Seq<Seq<bool>>) -> Option<FallingPiece> {
    match sky_pick(g) {
        Some((x, y)) => Some(t_piece(RotationState::South, x, y)),
        None => match twist_scan(g, 0) {
            None => None,
            Some(t) => match cave_spec(g, twist_piece(t)) {
                Some(p) => Some(p),
                None => if t.is_tslot && on_stack_spec(g, twist_piece(t)) {
                    Some(tst_choice(g, t))
                } else {
                    None
                },
            },
        },
    }
}

/// Fills T-slots in turn, at most `n`, while they clear two lines or more: the lines each fill
/// cleared, and the grid left behind. A slot whose T would reach off the playfield ends the
/// search.
pub open spec fn cut_phase(g: Seq<Seq<bool>>, n: nat) -> (Seq<int>, Seq<Seq<bool>>)
    decreases n,
{
    if n == 0 {
        (Seq::empty(), g)
    } else {
        match next_cut(g) {
            None => (Seq::empty(), g),
            Some(p) => if !on_field(p) {
                (Seq::empty(), g)
            } else {
                let lines = full_rows(placed_grid(g, p), 40).len() as int;
                if lines >= 2 {
                    let rest = cut_phase(clear_lines(placed_grid(g, p)), (n - 1) as nat);
                    (seq![lines] + rest.0, rest.1)
                } else {
                    (seq![lines], g)
                }
            },
        }
    }
}

/// Every fill that `cut_phase` makes in its first `n` rounds completes at most three rows.
pub open spec fn cut_fits(g: Seq<Seq<bool>>, n: nat) -> bool
    decreases n,
{
    if n == 0 {
        true
    } else {
        match next_cut(g) {
            None => true,
            Some(p) => if !on_field(p) {
                true
            } else {
                let lines = full_rows(placed_grid(g, p), 40).len() as int;
                lines <= 3 && (lines >= 2 ==> cut_fits(clear_lines(placed_grid(g, p)), (n - 1) as nat))
            },
        }
    }
}

/// On a grid of forty ten-cell rows with no full row, as every lock leaves behind, each fill
/// completes at most three rows.
pub proof fn lemma_cut_fits(g: Seq<Seq<bool>>, n: nat)
    requires
        shaped(g),
        no_full_rows(g),
    ensures
        cut_fits(g, n),
    decreases n,
{
    if n > 0 {
        if let Some(p) = next_cut(g) {
            if on_field(p) {
                assert(p.kind.0 == Piece::T);
                lemma_t_clears_at_most_three(g, p);
                lemma_clear_lines_not_full(placed_grid(g, p));
                lemma_shaped_after(g, p);
                lemma_cut_fits(clear_lines(placed_grid(g, p)), (n - 1) as nat);
            }
        }
    }
}

/// How many of the first `n` rows of `g` hold a filled cell.
pub open spec fn used_rows(g: Seq<Seq<bool>>, n: int) -> int
    decreases n,
{
    if n <= 0 {
        0
    } else {
        used_rows(g, n - 1) + if row_empty(g[n - 1]) {
            0int
        } else {
            1
        }
    }
}

/// Between rows `m` and `n` at most `n - m` rows are used.
proof fn lemma_used_rows_range(g: Seq<Seq<bool>>, m: int, n: int)
    requires
        0 <= m <= n,
    ensures
        0 <= used_rows(g, n) - used_rows(g, m) <= n - m,
        0 <= used_rows(g, m),
    decreases n,
{
    if n > m {
        lemma_used_rows_range(g, m, n - 1);
    } else {
        lemma_used_rows_nonneg(g, m);
    }
}

/// No prefix uses fewer than no rows.
proof fn lemma_used_rows_nonneg(g: Seq<Seq<bool>>, n: int)
    ensures
        0 <= used_rows(g, n),
    decreases n,
{
    if n > 0 {
        lemma_used_rows_nonneg(g, n - 1);
    }
}

/// Two grids with the same rows between `m` and `n` use as many of them.
proof fn lemma_used_rows_same(g1: Seq<Seq<bool>>, g2: Seq<Seq<bool>>, m: int, n: int)
    requires
        0 <= m <= n,
        forall|y: int| m <= y < n ==> #[trigger] g1[y] == g2[y],
    ensures
        used_rows(g1, n) - used_rows(g1, m) == used_rows(g2, n) - used_rows(g2, m),
    decreases n,
{
    if n > m {
        lemma_used_rows_same(g1, g2, m, n - 1);
        assert(g1[n - 1] == g2[n - 1]);
    }
}

/// The kept rows use as many rows as the grid, less its full rows.
proof fn lemma_used_kept(h: Seq<Seq<bool>>, n: int)
    requires
        0 <= n,
    ensures
        used_rows(kept_rows(h, n), kept_rows(h, n).len() as int) == used_rows(h, n) - full_rows(h, n).len(),
    decreases n,
{
    if n > 0 {
        lemma_used_kept(h, n - 1);
        let k = kept_rows(h, n - 1);
        if row_full(h[n - 1]) {
            assert(h[n - 1][0]);
        } else {
            let k2 = k.push(h[n - 1]);
            assert(kept_rows(h, n) == k2);
            lemma_used_rows_same(k2, k, 0, k.len() as int);
        }
    }
}

/// Clearing lines leaves as many used rows as there were, less the full ones.
proof fn lemma_used_after_clear(h: Seq<Seq<bool>>)
    ensures
        used_rows(clear_lines(h), 40) == used_rows(h, 40) - full_rows(h, 40).len(),
{
    let k = kept_rows(h, 40);
    let c = clear_lines(h);
    lemma_kept_full_len(h, 40);
    lemma_used_kept(h, 40);
    lemma_used_rows_same(c, k, 0, k.len() as int);
    assert forall|y: int| k.len() <= y < 40 implies #[trigger] c[y] == empty_row() by {}
    lemma_used_empty_tail(c, k.len() as int, 40);
}

/// Rows that are all empty add nothing.
proof fn lemma_used_empty_tail(c: Seq<Seq<bool>>, m: int, n: int)
    requires
        0 <= m <= n,
        forall|y: int| m <= y < n ==> #[trigger] c[y] == empty_row(),
    ensures
        used_rows(c, n) == used_rows(c, m),
    decreases n,
{
    if n > m {
        lemma_used_empty_tail(c, m, n - 1);
        assert(row_empty(c[n - 1]));
    }
}

/// In the rows between `m` and `n`, each row full after the placement was used before it.
proof fn lemma_used_covers_full(g: Seq<Seq<bool>>, pg: Seq<Seq<bool>>, m: int, n: int)
    requires
        0 <= m <= n,
        forall|y: int| m <= y < n && #[trigger] row_full(pg[y]) ==> !row_empty(g[y]),
    ensures
        used_rows(g, n) - used_rows(g, m) >= full_rows(pg, n).len() - full_rows(pg, m).len(),
    decreases n,
{
    if n > m {
        lemma_used_covers_full(g, pg, m, n - 1);
        lemma_used_rows_range(g, n - 1, n);
    }
}

/// A fill that clears two lines or more on a grid without full rows leaves fewer used rows,
/// and the grid used at least as many rows as lines were cleared.
pub proof fn lemma_fill_uses_fewer_rows(g: Seq<Seq<bool>>, p: FallingPiece)
    requires
        shaped(g),
        no_full_rows(g),
        p.kind.0 == Piece::T,
        on_field(p),
        full_rows(placed_grid(g, p), 40).len() >= 2,
    ensures
        used_rows(clear_lines(placed_grid(g, p)), 40) <= used_rows(g, 40) - 1,
        used_rows(g, 40) >= 2,
{
    let pg = placed_grid(g, p);
    let lines = full_rows(pg, 40).len() as int;
    let a = if p.y - 1 < 0 {
        0
    } else {
        p.y - 1
    };
    let b = if p.y + 2 > 40 {
        40
    } else {
        p.y + 2
    };
    assert(0 <= p.y < 40) by {
        crate::piece::lemma_center(p.kind);
        let c = crate::piece::center_index(Piece::T);
        assert(p.cell(c) == (p.x as int, p.y as int));
        assert(0 <= p.cell(c).1 < 40);
    }
    assert forall|y: int| 0 <= y < 40 && (y < a || y >= b) implies #[trigger] pg[y] == g[y] by {
        assert forall|x: int| 0 <= x < 10 implies pg[y][x] == g[y][x] by {
            if p.covers(x, y) {
                let i = choose|i: int| 0 <= i < 4 && #[trigger] p.cell(i) == (x, y);
                lemma_t_offsets(p.kind.1, i);
            }
        }
        assert(pg[y] =~= g[y]);
    }
    assert forall|y: int| 0 <= y < 40 && (y < a || y >= b) implies !row_full(#[trigger] pg[y]) by {
        assert(pg[y] == g[y]);
    }
    assert forall|y: int| a <= y < b && #[trigger] row_full(pg[y]) implies !row_empty(g[y]) by {
        let x: int = if p.x <= 4 {
            9
        } else {
            0
        };
        assert(pg[y][x]);
        if p.covers(x, y) {
            let i = choose|i: int| 0 <= i < 4 && #[trigger] p.cell(i) == (x, y);
            lemma_t_offsets(p.kind.1, i);
            crate::piece::lemma_center(p.kind);
            let c = crate::piece::center_index(Piece::T);
            assert(p.cell(c) == (p.x as int, p.y as int));
            assert(0 <= p.cell(c).0 < 10);
        }
        assert(g[y][x]);
    }
    lemma_full_rows_skip(pg, 0, a);
    lemma_full_rows_skip(pg, b, 40);
    assert(full_rows(pg, 0).len() == 0);
    lemma_used_rows_same(pg, g, 0, a);
    lemma_used_rows_same(pg, g, b, 40);
    lemma_used_rows_range(pg, a, b);
    lemma_used_rows_range(g, b, 40);
    lemma_used_rows_range(g, a, b);
    lemma_used_covers_full(g, pg, a, b);
    lemma_used_after_clear(pg);
}

/// Filling T-slots ends by itself within forty rounds on a grid without full rows: more rounds
/// than there are used rows give the same fills and the same grid.
pub proof fn lemma_cut_phase_settles(g: Seq<Seq<bool>>, k: nat, m: nat)
    requires
        shaped(g),
        no_full_rows(g),
        used_rows(g, 40) <= k,
        1 <= k <= m,
    ensures
        cut_phase(g, m) == cut_phase(g, k),
    decreases k,
{
    if let Some(p) = next_cut(g) {
        if on_field(p) {
            let pg = placed_grid(g, p);
            if full_rows(pg, 40).len() >= 2 {
                assert(p.kind.0 == Piece::T);
                lemma_fill_uses_fewer_rows(g, p);
                let g2 = clear_lines(pg);
                lemma_clear_lines_not_full(pg);
                lemma_shaped_after(g, p);
                lemma_cut_phase_settles(g2, (k - 1) as nat, (m - 1) as nat);
            }
        }
    }
}

/// On a grid without full rows, filling T-slots for any number of rounds beyond forty gives the
/// same fills and the same grid as forty rounds.
pub proof fn lemma_forty_rounds_suffice(g: Seq<Seq<bool>>, m: nat)
    requires
        shaped(g),
        no_full_rows(g),
        m >= 40,
    ensures
        cut_phase(g, m) == cut_phase(g, 40),
{
    lemma_used_rows_range(g, 0, 40);
    lemma_cut_phase_settles(g, 40, m);
}

/// The T-slot weights of the fills, by the lines each cleared.
pub open spec fn tslot_sum(w: Seq<i32>, rounds: Seq<int>) -> int
    decreases rounds.len(),
{
    if rounds.len() == 0 {
        0
    } else {
        tslot_sum(w, rounds.drop_last()) + w[rounds.last()]
    }
}

/// How many of the two rows under a slot centred at `(x, y)` are filled outside the slot's
/// three columns.
fn filledness(board: &Board, x: i32, y: i32) -> (f: usize)
    requires
        board.inv(),
        -100 <= x <= 100,
        -100 <= y <= 100,
    ensures
        f as int == fill_spec(board.grid(), x as int, y as int),
{
    let mut filled: usize = 0;
    let mut cy = y - 1;
    while cy < y + 1
        invariant
            y - 1 <= cy <= y + 1,
            -100 <= x <= 100,
            -100 <= y <= 100,
            board.inv(),
            filled as int == (if cy > y - 1 && full_outside(board.grid(), x as int, y - 1) {
                1int
            } else {
                0
            }) + (if cy > y && full_outside(board.grid(), x as int, y as int) {
                1int
            } else {
                0
            }),
        decreases y + 1 - cy,
    {
        let mut full = true;
        let mut rx: i32 = 0;
        while rx < 10
            invariant
                0 <= rx <= 10,
                -100 <= x <= 100,
                -101 <= cy <= 101,
                board.inv(),
                full == forall|k: int| 0 <= k < rx && (k < x - 1 || k > x + 1) ==> #[trigger] occ_grid(board.grid(), k, cy as int),
            decreases 10 - rx,
        {
            if rx < x - 1 || rx > x + 1 {
                if !board.occupied(rx, cy) {
                    full = false;
                }
            }
            rx = rx + 1;
        }
        assert(full == full_outside(board.grid(), x as int, cy as int));
        if full {
            filled = filled + 1;
        }
        cy = cy + 1;
    }
    filled
}

/// Finds the T-slot open to the sky with the most lines filled, scanning windows of two columns
/// from the left; among equally full slots the first found is kept.
pub fn sky_tslot(board: &Board) -> (r: Option<(i32, i32)>)
    requires
        board.wf(),
    ensures
        r matches Some((x, y)) ==> sky_pick(board.grid()) == Some((x as int, y as int)),
        r is None ==> sky_pick(board.grid()) is None,
        r is None <==> forall|w: int| 0 <= w < 9 ==> #[trigger] sky_at(board.grid(), w) is None,
        r matches Some((x, y)) ==> exists|w: int|
            0 <= w < 9 && #[trigger] sky_at(board.grid(), w) == Some((x as int, y as int)) && forall|w2: int|
                0 <= w2 < 9 && #[trigger] sky_at(board.grid(), w2) is Some ==> sky_fill(board.grid(), w2)
                    <= fill_spec(board.grid(), x as int, y as int) && (w2 < w ==> sky_fill(board.grid(), w2)
                    < fill_spec(board.grid(), x as int, y as int)),
{
    proof {
        lemma_board_heights(board);
        lemma_sky_fold(board.grid(), 9);
    }
    let hs = board.column_heights();
    let ghost g = board.grid();
    let mut best: Option<(usize, i32, i32)> = None;
    let mut x: usize = 0;
    while x < 9
        invariant
            board.wf(),
            g == board.grid(),
            x <= 9,
            forall|c: int| 0 <= c < 10 ==> #[trigger] hs@[c] as int == hgt(g, c),
            forall|c: int| 0 <= c < 10 ==> 0 <= #[trigger] hgt(g, c) <= 40,
            best is None ==> sky_fold(g, x as int) is None,
            best matches Some((f, bx, by)) ==> sky_fold(g, x as int) == Some((f as int, bx as int, by as int)),
        decreases 9 - x,
    {
        let xi = x as i32;
        let left_h = hs[x];
        let right_h = hs[x + 1];
        let mut found: Option<(i32, i32)> = None;
        if left_h > right_h {
            let is_tslot = board.occupied(xi + 2, left_h + 1) && !board.occupied(xi + 2, left_h)
                && board.occupied(xi + 2, left_h - 1);
            if is_tslot {
                found = Some((xi + 1, left_h));
            }
        } else if right_h > left_h {
            let is_tslot = board.occupied(xi - 1, right_h + 1) && !board.occupied(xi - 1, right_h)
                && board.occupied(xi - 1, right_h - 1);
            if is_tslot {
                found = Some((xi, right_h));
            }
        }
        assert(found matches Some((fx, fy)) ==> sky_at(g, x as int) == Some((fx as int, fy as int)));
        assert(found is None ==> sky_at(g, x as int) is None);
        match found {
            Some((fx, fy)) => {
                best = match best {
                    None => Some((filledness(board, fx, fy), fx, fy)),
                    Some((f, ox, oy)) => {
                        let fill = filledness(board, fx, fy);
                        if fill > f {
                            Some((fill, fx, fy))
                        } else {
                            Some((f, ox, oy))
                        }
                    },
                };
            },
            None => {},
        }
        x = x + 1;
    }
    match best {
        Some((_, bx, by)) => Some((bx, by)),
        None => None,
    }
}

/// The twist spots found lie on the playfield's columns, a little below or above its rows.
proof fn lemma_twist_scan_range(g: Seq<Seq<bool>>, x: int)
    requires
        0 <= x,
        forall|c: int| 0 <= c < 10 ==> 0 <= #[trigger] hgt(g, c) <= 40,
    ensures
        twist_scan(g, x) matches Some(t) ==> 0 <= t.x < 10 && -2 <= t.y <= 38,
    decreases 8 - x,
{
    if x < 8 {
        lemma_twist_scan_range(g, x + 1);
        assert(0 <= hgt(g, x + 1) <= 40);
    }
}

/// Where the next T-slot is filled on the board, as `next_cut` says.
fn next_cut_exec(board: &Board) -> (r: Option<FallingPiece>)
    requires
        board.wf(),
    ensures
        r == next_cut(board.grid()),
{
    match sky_tslot(board) {
        Some((x, y)) => {
            return Some(FallingPiece {
                kind: PieceState(Piece::T, RotationState::South),
                x,
                y,
                tspin: TspinStatus::NoSpin,
            });
        },
        None => {},
    }
    proof {
        lemma_board_heights(board);
        lemma_twist_scan_range(board.grid(), 0);
    }
    match tst_twist(board) {
        None => None,
        Some(twist) => {
            let piece = twist.piece();
            match cave_tslot(board, piece) {
                Some(p) => Some(p),
                None => {
                    proof {
                        board.lemma_inv();
                    }
                    if twist.is_tslot && board.on_stack(&piece) {
                        let left = FallingPiece {
                            kind: PieceState(Piece::T, RotationState::East),
                            x: twist.x,
                            y: twist.y,
                            tspin: TspinStatus::NoSpin,
                        };
                        let right = FallingPiece {
                            kind: PieceState(Piece::T, RotationState::West),
                            x: twist.x,
                            y: twist.y,
                            tspin: TspinStatus::NoSpin,
                        };
                        let (imperial, normal) = if twist.point_left {
                            (right, left)
                        } else {
                            (left, right)
                        };
                        proof {
                            crate::moves::lemma_blocked(*board, imperial);
                        }
                        if !board.obstructed(&imperial) {
                            Some(imperial)
                        } else {
                            Some(normal)
                        }
                    } else {
                        None
                    }
                },
            }
        },
    }
}


/// Fills the T-slots of a copy of the board in turn, as `cut_phase` says, at most forty times;
/// gives the lines of each fill, as the T-slot weights of both sets sum them, and the board left
/// behind. Each fill that goes on leaves fewer used rows, so on a board a lock left behind
/// the search ends by itself before the forty rounds run out (`lemma_forty_rounds_suffice`).
fn fill_tslots(
    board: &Board,
    aggressive: &Weights,
    defensive: &Weights,
) -> (r: (i64, i64, Board))
    requires
        board.wf(),
        cut_fits(board.grid(), 40),
        board.combo_of() <= u32::MAX - 40,
    ensures
        r.0 == tslot_sum(aggressive.tslot@, cut_phase(board.grid(), 40).0),
        r.1 == tslot_sum(defensive.tslot@, cut_phase(board.grid(), 40).0),
        r.2.wf(),
        r.2.grid() == cut_phase(board.grid(), 40).1,
        -40 * 0x8000_0000 <= r.0 <= 40 * 0x8000_0000,
        -40 * 0x8000_0000 <= r.1 <= 40 * 0x8000_0000,
{
    let ghost total = cut_phase(board.grid(), 40);
    let mut b = board.clone_board();
    let ghost mut done: Seq<int> = Seq::empty();
    let mut agg: i64 = 0;
    let mut def: i64 = 0;
    let mut i: usize = 0;
    while i < 40
        invariant_except_break
            i <= 40,
            b.wf(),
            cut_fits(b.grid(), (40 - i) as nat),
            b.combo_of() <= board.combo_of() + i,
            board.combo_of() <= u32::MAX - 40,
            done + cut_phase(b.grid(), (40 - i) as nat).0 == total.0,
            cut_phase(b.grid(), (40 - i) as nat).1 == total.1,
            agg == tslot_sum(aggressive.tslot@, done),
            def == tslot_sum(defensive.tslot@, done),
            done.len() == i,
            -0x8000_0000 * i <= agg <= 0x8000_0000 * i,
            -0x8000_0000 * i <= def <= 0x8000_0000 * i,
            forall|k: int| 0 <= k < done.len() ==> 0 <= #[trigger] done[k] < 4,
        ensures
            done == total.0,
            b.grid() == total.1,
            b.wf(),
            agg == tslot_sum(aggressive.tslot@, done),
            def == tslot_sum(defensive.tslot@, done),
            -40 * 0x8000_0000 <= agg <= 40 * 0x8000_0000,
            -40 * 0x8000_0000 <= def <= 40 * 0x8000_0000,
        decreases 40 - i,
    {
        let ghost g = b.grid();
        let ghost n = (40 - i) as nat;
        let cut = next_cut_exec(&b);
        let piece = match cut {
            None => {
                assert(done + Seq::<int>::empty() == done);
                break;
            },
            Some(p) => p,
        };
        proof {
            b.lemma_inv();
            crate::piece::lemma_offset_small(piece.kind, 0);
            assert(!piece.in_range() ==> !on_field(piece)) by {
                if !piece.in_range() {
                    assert(!(0 <= piece.cell(0).0 < 10 && 0 <= piece.cell(0).1 < 40));
                }
            }
        }
        if !(i32::MIN + 2 <= piece.x && piece.x <= i32::MAX - 2 && i32::MIN + 3 <= piece.y
            && piece.y <= i32::MAX - 3) || !on_field_piece(&piece) {
            assert(done + Seq::<int>::empty() == done);
            break;
        }
        let copy = b.clone_board();
        assert(full_rows(placed_grid(b.grid(), piece), 40).len() <= 3);
        let result = cutout_tslot(copy, piece);
        let lines = result.lines;
        proof {
            assert(tslot_sum(aggressive.tslot@, done.push(lines as int)) == tslot_sum(aggressive.tslot@, done) + aggressive.tslot@[lines as int]) by {
                assert(done.push(lines as int).drop_last() == done);
            }
            assert(tslot_sum(defensive.tslot@, done.push(lines as int)) == tslot_sum(defensive.tslot@, done) + defensive.tslot@[lines as int]) by {
                assert(done.push(lines as int).drop_last() == done);
            }
        }
        agg = agg + aggressive.tslot[lines] as i64;
        def = def + defensive.tslot[lines] as i64;
        match result.result {
            Some(nb) => {
                proof {
                    assert(done.push(lines as int) + cut_phase(nb.grid(), (n - 1) as nat).0 =~= done + (seq![lines as int] + cut_phase(nb.grid(), (n - 1) as nat).0));
                    done = done.push(lines as int);
                }
                b = nb;
            },
            None => {
                proof {
                    assert(done.push(lines as int) =~= done + seq![lines as int]);
                    done = done.push(lines as int);
                }
                break;
            },
        }
        i = i + 1;
    }
    (agg, def, b)
}

/// All cells of `p` lie on the playfield.
fn on_field_piece(p: &FallingPiece) -> (b: bool)
    requires
        p.in_range(),
    ensures
        b == on_field(*p),
{
    let cells = p.cells();
    let mut i: usize = 0;
    while i < 4
        invariant
            i <= 4,
            forall|j: int| 0 <= j < 4 ==> (cells@[j].0 as int, cells@[j].1 as int) == #[trigger] p.cell(j),
            forall|j: int| 0 <= j < i ==> 0 <= #[trigger] p.cell(j).0 < 10 && 0 <= p.cell(j).1 < 40,
        decreases 4 - i,
    {
        let (x, y) = cells[i];
        assert(p.cell(i as int) == (x as int, y as int));
        if x < 0 || x >= 10 || y < 0 || y >= 40 {
            return false;
        }
        i = i + 1;
    }
    true
}


/// The leftmost lowest column among the first `n` columns.
pub open spec fn well_first(g: Seq<Seq<bool>>, n: int) -> int
    decreases n,
{
    if n <= 1 {
        0
    } else if hgt(g, n - 1) < hgt(g, well_first(g, n - 1)) {
        n - 1
    } else {
        well_first(g, n - 1)
    }
}

/// The first column from `x` on, other than the well, whose cell in row `y` is empty; `10`
/// when there is none.
pub open spec fn gap_in_row(g: Seq<Seq<bool>>, well: int, y: int, x: int) -> int
    decreases 10 - x,
{
    if x >= 10 {
        10
    } else if x != well && !occ_grid(g, x, y) {
        x
    } else {
        gap_in_row(g, well, y, x + 1)
    }
}

/// The depth of the well counted in cells: ten for each row from `y` up to row 20 that is
/// filled outside the well, then the cells before the first gap of the row that is not.
pub open spec fn depth_cells(g: Seq<Seq<bool>>, well: int, y: int) -> int
    decreases 20 - y,
{
    if y >= 20 {
        0
    } else {
        let k = gap_in_row(g, well, y, 0);
        if k < 10 {
            k
        } else {
            10 + depth_cells(g, well, y + 1)
        }
    }
}

/// The well depth as the evaluator counts it, at most eight.
pub open spec fn capped_depth(g: Seq<Seq<bool>>) -> int {
    let w = well_first(g, 10);
    let d = depth_cells(g, w, hgt(g, w));
    if d < 8 {
        d
    } else {
        8
    }
}

/// The first lowest column.
fn first_well(board: &Board) -> (well: usize)
    requires
        board.wf(),
    ensures
        well as int == well_first(board.grid(), 10),
        well < 10,
{
    proof {
        lemma_board_heights(board);
    }
    let heights = board.column_heights();
    let mut well: usize = 0;
    let mut x: usize = 1;
    while x < 10
        invariant
            1 <= x <= 10,
            forall|c: int| 0 <= c < 10 ==> #[trigger] heights@[c] as int == hgt(board.grid(), c),
            well as int == well_first(board.grid(), x as int),
            well < x,
        decreases 10 - x,
    {
        if heights[x] < heights[well] {
            well = x;
        }
        x = x + 1;
    }
    well
}

/// The well's depth in cells, at most eight.
fn well_cells(board: &Board, well: usize) -> (d: i32)
    requires
        board.wf(),
        well as int == well_first(board.grid(), 10),
        well < 10,
    ensures
        d == capped_depth(board.grid()),
        0 <= d <= 8,
{
    proof {
        lemma_board_heights(board);
    }
    let ghost g = board.grid();
    let start = board.column_heights()[well];
    let mut depth: i32 = 0;
    let mut y: i32 = start;
    let mut stop = false;
    while y < 20 && !stop
        invariant
            board.wf(),
            g == board.grid(),
            0 <= start <= 40,
            start <= y || y >= 20,
            start as int == hgt(g, well as int),
            !stop ==> depth + depth_cells(g, well as int, y as int) == depth_cells(g, well as int, start as int),
            stop ==> depth == depth_cells(g, well as int, start as int),
            !stop ==> 0 <= depth <= 10 * (y - start),
            stop ==> 0 <= depth <= 10 * (y - start) + 10,
            y <= 40,
        decreases 20 - y, (if stop { 0int } else { 1int }),
    {
        let mut x: i32 = 0;
        let ghost d0 = depth;
        while x < 10
            invariant_except_break
                !stop,
            invariant
                0 <= x <= 10,
                board.wf(),
                g == board.grid(),
                0 <= y < 20,
                0 <= d0 <= 200,
                depth == d0 + x,
                gap_in_row(g, well as int, y as int, 0) == gap_in_row(g, well as int, y as int, x as int),
            ensures
                stop ==> x < 10 && gap_in_row(g, well as int, y as int, 0) == x,
                !stop ==> x == 10,
            decreases 10 - x,
        {
            if x as usize != well && !board.occupied(x, y) {
                stop = true;
                break;
            }
            depth = depth + 1;
            x = x + 1;
        }
        if !stop {
            y = y + 1;
        }
    }
    if depth < 8 {
        depth
    } else {
        8
    }
}


/// What a board is worth by one set of weights, from its measures: the back-to-back flag,
/// the height before and after the T-slots were filled, the T-slot weights, the well depth,
/// the bumpiness, the cavity and overhang cells and the covered cells.
pub open spec fn weigh_spec(
    w: Weights,
    b2b: bool,
    h0: int,
    tslots: int,
    h1: int,
    depth: int,
    bump: (int, int),
    holes: (int, int),
    cov: (int, int),
) -> int {
    (if b2b {
        w.back_to_back as int
    } else {
        0
    }) + w.height_before * h0 + tslots + w.height_after * h1 + w.well_depth * depth + w.bumpiness
        * bump.0 + w.bumpiness_sq * bump.1 + w.cavity_cells * holes.0 + w.cavity_cells_sq * holes.0
        * holes.0 + w.overhang_cells * holes.1 + w.overhang_cells_sq * holes.1 * holes.1
        + w.covered_cells * cov.0 + w.covered_cells_sq * cov.1
}

/// What the board left after a placement is worth by one set of weights: its measures taken
/// after its T-slots were filled in turn, but for its height, also taken before. Forty rounds
/// of filling are as many as any board without full rows allows (`lemma_forty_rounds_suffice`).
pub open spec fn transient_spec(w: Weights, b2b: bool, g0: Seq<Seq<bool>>) -> int {
    let phase = cut_phase(g0, 40);
    let g1 = phase.1;
    let well = well_first(g1, 10);
    weigh_spec(
        w,
        b2b,
        max_height(g0, 10),
        tslot_sum(w.tslot@, phase.0),
        max_height(g1, 10),
        capped_depth(g1),
        bumpiness_spec(g1, well),
        region_counts(g1),
        covered_spec(g1),
    )
}

/// A weight of `i32` times the square of a count of at most `400`.
proof fn lemma_sq_wide(w: int, c: int)
    requires
        -0x8000_0000 <= w < 0x8000_0000,
        0 <= c <= 400,
    ensures
        -0x8000_0000 * 400 <= w * c <= 0x8000_0000 * 400,
        -0x8000_0000 * 160000 <= (w * c) * c <= 0x8000_0000 * 160000,
{
    assert(-0x8000_0000 * 400 <= w * c <= 0x8000_0000 * 400 && -0x8000_0000 * 160000 <= (w * c) * c
        <= 0x8000_0000 * 160000) by (nonlinear_arith)
        requires
            -0x8000_0000 <= w < 0x8000_0000,
            0 <= c <= 400,
    ;
}

/// What a board is worth by one set of weights, from its measures.
fn weigh(
    w: &Weights,
    b2b: bool,
    h0: i32,
    tslots: i64,
    h1: i32,
    depth: i32,
    bump: (i32, i32),
    holes: (i32, i32),
    cov: (i32, i32),
) -> (v: i64)
    requires
        0 <= h0 <= 40,
        -40 * 0x8000_0000 <= tslots <= 40 * 0x8000_0000,
        0 <= h1 <= 40,
        0 <= depth <= 8,
        0 <= bump.0 <= 400,
        0 <= bump.1 <= 16000,
        0 <= holes.0 <= 400,
        0 <= holes.1 <= 400,
        0 <= cov.0 <= 400,
        0 <= cov.1 <= 16000,
    ensures
        v == weigh_spec(
            *w,
            b2b,
            h0 as int,
            tslots as int,
            h1 as int,
            depth as int,
            (bump.0 as int, bump.1 as int),
            (holes.0 as int, holes.1 as int),
            (cov.0 as int, cov.1 as int),
        ),
{
    proof {
        lemma_mul_wide(w.height_before as int, h0 as int, 40);
        lemma_mul_wide(w.height_after as int, h1 as int, 40);
        lemma_mul_wide(w.well_depth as int, depth as int, 8);
        lemma_mul_wide(w.bumpiness as int, bump.0 as int, 400);
        lemma_mul_wide(w.bumpiness_sq as int, bump.1 as int, 16000);
        lemma_mul_wide(w.cavity_cells as int, holes.0 as int, 400);
        lemma_mul_wide(w.overhang_cells as int, holes.1 as int, 400);
        lemma_mul_wide(w.covered_cells as int, cov.0 as int, 400);
        lemma_mul_wide(w.covered_cells_sq as int, cov.1 as int, 16000);
        lemma_sq_wide(w.cavity_cells_sq as int, holes.0 as int);
        lemma_sq_wide(w.overhang_cells_sq as int, holes.1 as int);
    }
    let mut v: i64 = 0;
    if b2b {
        v = v + w.back_to_back as i64;
    }
    v = v + (w.height_before as i64) * (h0 as i64);
    v = v + tslots;
    v = v + (w.height_after as i64) * (h1 as i64);
    v = v + (w.well_depth as i64) * (depth as i64);
    v = v + (w.bumpiness as i64) * (bump.0 as i64);
    v = v + (w.bumpiness_sq as i64) * (bump.1 as i64);
    v = v + (w.cavity_cells as i64) * (holes.0 as i64);
    v = v + (w.cavity_cells_sq as i64) * (holes.0 as i64) * (holes.0 as i64);
    v = v + (w.overhang_cells as i64) * (holes.1 as i64);
    v = v + (w.overhang_cells_sq as i64) * (holes.1 as i64) * (holes.1 as i64);
    v = v + (w.covered_cells as i64) * (cov.0 as i64);
    v = v + (w.covered_cells_sq as i64) * (cov.1 as i64);
    v
}

impl Standard {
    /// Evaluates a placement by both sets of weights: what it earned (its perfect clear, back
    /// to back, combo and kind, less the time it took) and what the board it left is worth, each
    /// wrapped into `i32` as two's-complement arithmetic leaves it.
    ///
    /// Each T-slot the evaluation fills on the board must complete at most three rows, which
    /// holds on any board a lock left behind (`lemma_cut_fits`); the combo counter leaves room
    /// for the T-slots filled on the way.
    pub fn evaluate(&self, lock: &LockResult, board: &Board, move_time: u32, placed: Piece) -> (e: Evaluation)
        requires
            board.wf(),
            cut_fits(board.grid(), 40),
            board.combo_of() <= u32::MAX - 40,
        ensures
            e.aggressive_accumulated == self.aggressive_accumulated_spec(*lock, move_time as int) as i32,
            e.defensive_accumulated == self.defensive_accumulated_spec(*lock, move_time as int) as i32,
            e.aggressive_transient == transient_spec(self.aggressive, board.b2b_of(), board.grid()) as i32,
            e.defensive_transient == transient_spec(self.defensive, board.b2b_of(), board.grid()) as i32,
    {
        let mut aggressive_accumulated: i64 = 0;
        let mut defensive_accumulated: i64 = 0;
        if lock.perfect_clear {
            aggressive_accumulated = self.aggressive.perfect_clear as i64 + self.defensive.perfect_clear as i64;
        } else {
            aggressive_accumulated = lock_weight_exec(&self.aggressive, lock);
            defensive_accumulated = lock_weight_exec(&self.defensive, lock);
        }
        aggressive_accumulated = aggressive_accumulated + time_weight_exec(&self.aggressive, lock, move_time);
        defensive_accumulated = defensive_accumulated + time_weight_exec(&self.defensive, lock, move_time);

        let h0 = highest_point(board);
        let (agg_slots, def_slots, after) = fill_tslots(board, &self.aggressive, &self.defensive);
        let h1 = highest_point(&after);
        let well = first_well(&after);
        let depth = well_cells(&after, well);
        let bump = bumpiness(&after, well);
        let holes = cavities_and_overhangs(&after);
        let cov = covered_cells(&after);
        let b2b = board.has_back_to_back_active();
        let aggressive_transient = weigh(&self.aggressive, b2b, h0, agg_slots, h1, depth, bump, holes, cov);
        let defensive_transient = weigh(&self.defensive, b2b, h0, def_slots, h1, depth, bump, holes, cov);
        Evaluation {
            aggressive_accumulated: #[verifier::truncate] (aggressive_accumulated as i32),
            aggressive_transient: #[verifier::truncate] (aggressive_transient as i32),
            defensive_accumulated: #[verifier::truncate] (defensive_accumulated as i32),
            defensive_transient: #[verifier::truncate] (defensive_transient as i32),
        }
    }
}

} // verus!
