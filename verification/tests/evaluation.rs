use cold_clear::board::Board;
use cold_clear::evaluation::changed::{self, tst_twist, TstTwist};
use cold_clear::evaluation::features;
use cold_clear::evaluation::holes;
use cold_clear::evaluation::misalike::Misalike;
use cold_clear::evaluation::naive::NaiveEvaluator;
use cold_clear::evaluation::pattern::{Array1024, Array4096, PatternEvaluator};
use cold_clear::evaluation::shapes;
use cold_clear::evaluation::standard::{Reward, Standard, Value};
use cold_clear::evaluation::weighted::{evaluate, BoardWeights, Evaluation as Eval, PlacementWeights};
use cold_clear::evaluation::{Evaluation, MoveCandidate};
use cold_clear::piece::{FallingPiece, LockResult, Piece, PieceState, PlacementKind, RotationState, TspinStatus};

fn lock(kind: PlacementKind, garbage: u32, combo: Option<u32>, b2b: bool, pc: bool) -> LockResult {
    LockResult {
        placement_kind: kind,
        locked_out: false,
        garbage_sent: garbage,
        combo,
        b2b,
        perfect_clear: pc,
        cleared_lines: vec![],
    }
}

fn board_with(cells: &[(usize, usize)]) -> Board {
    let mut f = [[false; 10]; 40];
    for &(x, y) in cells {
        f[y][x] = true;
    }
    let mut b: Board = Board::new();
    b.set_field(f);
    b
}

#[test]
fn standard_weights() {
    let s = Standard::default();
    assert_eq!(s.back_to_back, 52);
    assert_eq!(s.tslot, [8, 148, 192, 407]);
    assert_eq!(s.well_column, [20, 23, 20, 50, 59, 21, 59, 10, -10, 24]);
    assert!(s.use_bag && s.timed_jeopardy && !s.stack_pc_damage);
    let f = Standard::fast_config();
    assert_eq!(f.bumpiness_sq, -28);
    assert_eq!(f.tslot, [0, 150, 296, 207]);
    assert!(!f.timed_jeopardy);
}

#[test]
fn standard_name() {
    let mut s = Standard::default();
    assert_eq!(s.name(), "Standard");
    s.sub_name = Some("fast".to_string());
    assert_eq!(s.name(), "Standard\nfast");
}

#[test]
fn standard_evaluates_empty_board() {
    let s = Standard::default();
    let b: Board = Board::new();
    let (v, r) = s.evaluate(&lock(PlacementKind::NoClear, 0, None, false, false), &b, 0, Piece::O);
    assert_eq!(v, Value { value: -400, spike: 0 });
    assert_eq!(r, Reward { value: 0, attack: -1 });
    let f = Standard::fast_config();
    let (v, _) = f.evaluate(&lock(PlacementKind::NoClear, 0, None, false, false), &b, 0, Piece::O);
    // A negative depth cap turns the well term into 158 * -2, plus the well column's 22; a
    // flat field has no bumpiness.
    assert_eq!(v.value, -400 - 316 + 22);
}

#[test]
fn standard_rewards_placements() {
    let s = Standard::default();
    let b: Board = Board::new();
    let (_, r) = s.evaluate(&lock(PlacementKind::NoClear, 0, None, false, false), &b, 0, Piece::T);
    assert_eq!(r.value, -152);
    let (_, r) = s.evaluate(&lock(PlacementKind::Clear1, 0, Some(0), false, false), &b, 10, Piece::I);
    assert_eq!(r, Reward { value: -143 - 150, attack: 0 });
    let (_, r) = s.evaluate(&lock(PlacementKind::Tspin2, 5, Some(3), true, false), &b, 0, Piece::T);
    assert_eq!(r, Reward { value: 104 + 150 + 410 - 3 * 40, attack: 5 });
    let (_, r) = s.evaluate(&lock(PlacementKind::Clear4, 10, Some(0), false, true), &b, 0, Piece::I);
    assert_eq!(r, Reward { value: 999 - 3 * 40, attack: 10 });
}

#[test]
fn value_arithmetic() {
    let a = Value { value: 10, spike: 3 };
    assert_eq!(a.add(Value { value: -4, spike: 2 }), Value { value: 6, spike: 5 });
    assert_eq!(a.add_reward(Reward { value: 5, attack: 4 }), Value { value: 15, spike: 7 });
    assert_eq!(a.add_reward(Reward { value: 5, attack: -1 }), Value { value: 15, spike: 0 });
    assert_eq!(Value { value: -7, spike: 7 }.div(2), Value { value: -3, spike: 3 });
    assert_eq!(a.mul(3), Value { value: 30, spike: 9 });
    assert_eq!(a.modify_death(), Value { value: -990, spike: 0 });
    assert_eq!(Value { value: 20, spike: 0 }.weight(&Value { value: 0, spike: 0 }, 1), 450);
    let mut m = Value { value: 1, spike: 9 };
    m.improve(Value { value: 4, spike: 2 });
    assert_eq!(m, Value { value: 4, spike: 9 });
}

#[test]
fn pick_move_prefers_safe_then_spike() {
    let s = Standard::default();
    let mk = |rank: u32, spike: i32| MoveCandidate {
        mv: FallingPiece { kind: PieceState(Piece::I, RotationState::North), x: 4, y: 0, tspin: TspinStatus::NoSpin },
        lock: lock(PlacementKind::NoClear, 0, None, false, false),
        board: Board::new(),
        evaluation: Value { value: 0, spike },
        hold: false,
        original_rank: rank,
    };
    let c = s.pick_move(vec![mk(0, 1), mk(1, 5), mk(2, 5)], 0);
    assert_eq!(c.original_rank, 0);
    let c = s.pick_move(vec![mk(0, 1), mk(1, 5), mk(2, 5)], 20);
    assert_eq!(c.original_rank, 0);
    let c = s.pick_move(vec![mk(0, 1), mk(1, 5), mk(2, 5)], 21);
    assert_eq!(c.original_rank, 1);
}

#[test]
fn features_of_a_stack() {
    let b = board_with(&[(0, 0), (1, 0), (3, 0), (4, 0), (5, 0), (6, 0), (7, 0),
        (0, 1), (1, 1), (2, 1), (3, 1), (4, 1), (5, 1), (6, 1), (7, 1), (8, 1)]);
    assert_eq!(features::highest_point(&b), 2);
    assert_eq!(features::find_well(&b), 9);
    assert_eq!(features::cavities_and_overhangs(&b), (2, 0));
    assert_eq!(holes::cavities_and_overhangs(&b), (1, 1));
    assert_eq!(features::count_ones(0b1011), 3);
    let empty: Board = Board::new();
    assert_eq!(features::row_transitions(&empty), 80);
    assert_eq!(features::bumpiness(&empty, 9), (0, 0));
    assert_eq!(features::covered_cells(&empty), (0, 0));
}

#[test]
fn bumpiness_sums_height_changes_outside_the_well() {
    // heights 2, 0, 3, 0, ... with the well in column 1: changes 1 (2 to 3) and 3 (3 to 0)
    let b = board_with(&[(0, 0), (0, 1), (2, 0), (2, 1), (2, 2)]);
    assert_eq!(features::bumpiness(&b, 1), (4, 10));
    assert_eq!(features::bumpiness(&b, 9), (2 + 3 + 3, 4 + 9 + 9));
}

#[test]
fn covered_cells_count_the_cells_over_the_topmost_hole() {
    // one hole under one filled cell
    let b = board_with(&[(0, 1)]);
    assert_eq!(features::covered_cells(&b), (1, 1));
    // column 3: holes at 0 and 2 under three filled cells; only the topmost hole counts
    let b = board_with(&[(3, 1), (3, 3), (3, 4), (3, 5), (5, 0)]);
    assert_eq!(features::covered_cells(&b), (3, 9));
}

#[test]
fn well_depth_counts_filled_rows() {
    let mut cells = vec![];
    for y in 0..3 {
        for x in 0..9 {
            cells.push((x, y));
        }
    }
    let b = board_with(&cells);
    assert_eq!(features::find_well(&b), 9);
    assert_eq!(features::well_depth(&b, 9), 3);
}

#[test]
fn sky_tslot_is_found() {
    let b = board_with(&[(3, 0), (3, 1), (4, 0), (5, 1), (5, 3)]);
    let p = shapes::sky_tslot_left(&b).unwrap();
    assert_eq!(p.kind, PieceState(Piece::T, RotationState::South));
    assert_eq!((p.x, p.y), (4, 2));
    assert_eq!(shapes::sky_tslot_right(&Board::new()), None);
}

#[test]
fn sky_tslot_prefers_the_slot_with_most_lines_filled() {
    let mut cells = vec![];
    for y in 0..5 {
        cells.push((0, y));
        cells.push((2, y));
    }
    cells.push((2, 6));
    for y in 0..3 {
        for x in [1, 3, 4, 5, 9] {
            cells.push((x, y));
        }
    }
    cells.push((6, 0));
    cells.push((6, 1));
    cells.push((8, 1));
    cells.push((8, 3));
    let b = board_with(&cells);
    // a slot at (1, 5) over rows that are not filled, and one at (7, 2) over two filled rows
    assert_eq!(changed::sky_tslot(&b), Some((7, 2)));
    assert_eq!(changed::sky_tslot(&Board::new()), None);
}

#[test]
fn triple_twist_is_found() {
    let b = board_with(&[(0, 4), (1, 0), (1, 2)]);
    let t = tst_twist(&b).unwrap();
    assert_eq!(t, TstTwist { point_left: false, is_tslot: true, x: 0, y: 1 });
    let p = t.piece();
    assert_eq!(p.kind, PieceState(Piece::T, RotationState::West));
    assert_eq!(p.tspin, TspinStatus::Full);
    assert_eq!(tst_twist(&Board::new()), None);
}

#[test]
fn weighted_evaluation() {
    let mut bw = BoardWeights::default();
    bw.bumpiness = 1;
    bw.tslot_present = 5;
    let mut pw = PlacementWeights::default();
    pw.perfect_clear = 100;
    pw.soft_drop = -3;
    pw.combo_table[2] = 7;
    pw.clear2 = 11;
    let b: Board = Board::new();
    let e = evaluate(&lock(PlacementKind::NoClear, 0, None, false, true), &b, &bw, &pw, true);
    assert_eq!(e, Eval { accumulated: 97, transient: 0 });
    let e = evaluate(&lock(PlacementKind::Clear2, 1, Some(2), false, false), &b, &bw, &pw, false);
    assert_eq!(e.accumulated, 18);
}

#[test]
fn naive_evaluation() {
    let mut n = NaiveEvaluator::default();
    assert_eq!(n.combo_table, [0, 0, 100, 100, 100, 200, 200, 300, 300, 400, 400, 400]);
    assert_eq!(n.tst_slot, [500, 600, 700, 900]);
    let b: Board = Board::new();
    let e = n.evaluate(&lock(PlacementKind::NoClear, 0, None, false, false), &b, false);
    assert_eq!(e, Eval { accumulated: 0, transient: 50 });
    let e = n.evaluate(&lock(PlacementKind::Clear4, 4, Some(5), true, false), &b, true);
    assert_eq!(e.accumulated, 100 + 200 + 400 - 10);
}

#[test]
fn pattern_evaluation() {
    let mut rows = [0i32; 1024];
    rows[0] = 1;
    let mut p = PatternEvaluator {
        back_to_back: 3,
        thresholds: Array4096([0; 4096]),
        below_values: Array4096([0; 4096]),
        above_values: Array4096([0; 4096]),
        rows: Array1024(rows),
        b2b_clear: 0,
        clear1: 0,
        clear2: 0,
        clear3: 0,
        clear4: 0,
        tspin1: 0,
        tspin2: 0,
        tspin3: 0,
        mini_tspin1: 0,
        mini_tspin2: 0,
        perfect_clear: 9,
        combo_table: [0; 12],
        soft_drop: 0,
    };
    let b: Board = Board::new();
    let e = p.evaluate(&lock(PlacementKind::NoClear, 0, None, false, true), &b, false);
    assert_eq!(e, Eval { accumulated: 9, transient: 20 });
}

#[test]
fn misalike_name() {
    let mut m = Misalike {
        sub_name: None,
        in_row_transitions: 0,
        t_piece_in_hold: 0,
        i_piece_in_hold: 0,
        open_hole: 0,
        closed_hole: 0,
        topmost_closed_hole: 0,
    };
    assert_eq!(m.name(), "Misalike\n");
    m.sub_name = Some("x".to_string());
    assert_eq!(m.name(), "Misalike\n\nx");
}

#[test]
fn changed_default_weights_and_name() {
    let s = cold_clear::evaluation::changed::Standard::default();
    assert_eq!(s.name(), "Changed");
    assert_eq!(s.aggressive.height_after, -40);
    assert_eq!(s.defensive.height_after, -70);
    assert_eq!(s.aggressive.combo_table, [0, 0, 100, 100, 100, 200, 200, 300, 300, 400, 400, 400]);
    let o = s.search_options();
    assert_eq!((o.aggressive_height, o.defensive_height, o.gamma), (6, 14, (1, 1)));
    let named = cold_clear::evaluation::changed::Standard { sub_name: Some("x".to_string()), ..s };
    assert_eq!(named.name(), "Changed\nx");
}

#[test]
fn changed_evaluates_an_o_in_the_corner() {
    let s = cold_clear::evaluation::changed::Standard::default();
    let mut board: Board = Board::new();
    let lock = board.lock_piece(FallingPiece {
        kind: PieceState(Piece::O, RotationState::North),
        x: 0,
        y: 0,
        tspin: TspinStatus::NoSpin,
    });
    let e = s.evaluate(&lock, &board, 5, Piece::O);
    // the move time costs one per frame, with ten frames of spawn delay
    assert_eq!(e.aggressive_accumulated, -15);
    assert_eq!(e.defensive_accumulated, -15);
    // height 2 before and after, a well in column 2 three cells deep, bumpiness 2 (squares 4)
    assert_eq!(e.aggressive_transient, -20 - 80 + 150 - 20 - 20);
    assert_eq!(e.defensive_transient, -140 - 140 + 90 - 20 - 20);
}
