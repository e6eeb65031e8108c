use std::collections::VecDeque;
use cold_clear::board::Board;
use cold_clear::bot_controller::{Controller as BotController, Input, PlannedMove, Request};
use cold_clear::config::GameConfig;
use cold_clear::controller::{update_input, Controller};
use cold_clear::executor::{Event, PieceMoveExecutor};
use cold_clear::game::{add_garbage_rows, after_lock, garbage_events, wait_frame, GameState, GarbageCounters, GarbageOutcome, InputState};
use cold_clear::misa::mirror;
use cold_clear::modes::pcloop::{Info as PcInfo, PcPriority, PcScore};
use cold_clear::opener_book::{field, mirror_bag, mirror_field};
use cold_clear::piece::{combo_garbage, FallingPiece, LockResult, Piece, PieceMovement, PieceState, PlacementKind, RotationState, TspinStatus, CellColor};
use cold_clear::piece_set::PieceSet;
use cold_clear::row::{ColoredRow, Row};
use cold_clear::{BotPollState, Info};
use std::cmp::Ordering;

fn t_at(x: i32, y: i32) -> FallingPiece {
    FallingPiece { kind: PieceState(Piece::T, RotationState::North), x, y, tspin: TspinStatus::NoSpin }
}

fn no_lock() -> LockResult {
    LockResult {
        placement_kind: PlacementKind::NoClear,
        locked_out: false,
        garbage_sent: 0,
        combo: None,
        b2b: false,
        perfect_clear: false,
        cleared_lines: vec![],
    }
}

#[test]
fn controller_byte_roundtrip() {
    let c = Controller { left: true, right: false, rotate_right: true, rotate_left: false, soft_drop: true, hard_drop: false, hold: true };
    let b = c.to_byte();
    assert_eq!(Controller::from_bits(b as u64), c);
    assert_eq!(Controller::default().to_byte(), 0);
    assert_eq!(Controller::from_bits(0), Controller::default());
}

#[test]
fn input_is_used_on_press() {
    let mut used = false;
    update_input(&mut used, false, true);
    assert!(used);
    used = false;
    update_input(&mut used, true, true);
    assert!(!used);
    used = true;
    update_input(&mut used, true, false);
    assert!(!used);
}

#[test]
fn game_config_defaults() {
    let c = GameConfig::default();
    assert_eq!(c.spawn_delay, 7);
    assert_eq!(c.line_clear_delay, 45);
    assert_eq!(c.delayed_auto_shift, 12);
    assert_eq!(c.auto_repeat_rate, 2);
    assert_eq!(c.gravity, 4500);
    assert_eq!(c.margin_time, None);
    assert_eq!(c.move_lock_rule, 15);
}

#[test]
fn auto_shift_fires_after_delay() {
    let mut config = GameConfig::default();
    config.delayed_auto_shift = 3;
    config.auto_repeat_rate = 1;
    let mut s = InputState::new(&config);
    let left = Controller { left: true, ..Controller::default() };
    s.update(left, &config);
    assert!(s.used.left);
    assert_eq!(s.left_das, 2);
    s.used.left = false;
    s.update(left, &config);
    assert!(!s.used.left);
    assert_eq!(s.left_das, 1);
    s.update(left, &config);
    assert!(s.used.left);
    assert_eq!(s.left_das, 1);
    s.update(Controller::default(), &config);
    assert!(!s.used.left);
    assert_eq!(s.left_das, 3);
}

#[test]
fn pressing_right_cancels_left() {
    let config = GameConfig::default();
    let mut s = InputState::new(&config);
    s.update(Controller { left: true, ..Controller::default() }, &config);
    assert!(s.used.left && !s.going_right);
    s.update(Controller { left: true, right: true, ..Controller::default() }, &config);
    assert!(s.going_right && s.used.right && !s.used.left);
    s.update(Controller { hard_drop: true, ..Controller::default() }, &config);
    assert!(s.used.hard_drop);
    s.update(Controller { hard_drop: true, ..Controller::default() }, &config);
    assert!(!s.used.hard_drop);
}

#[test]
fn garbage_is_cancelled_then_added_or_sent() {
    let mut g = GarbageCounters { garbage_queue: 7, attacking: 3 };
    assert_eq!(g.deal(10), GarbageOutcome::Added(4));
    assert_eq!(g, GarbageCounters { garbage_queue: 0, attacking: 0 });
    let mut g = GarbageCounters { garbage_queue: 15, attacking: 2 };
    assert_eq!(g.deal(10), GarbageOutcome::Added(10));
    assert_eq!(g, GarbageCounters { garbage_queue: 3, attacking: 0 });
    let mut g = GarbageCounters { garbage_queue: 2, attacking: 6 };
    assert_eq!(g.deal(10), GarbageOutcome::Sent(4));
    assert_eq!(g, GarbageCounters { garbage_queue: 0, attacking: 0 });
    let mut g = GarbageCounters { garbage_queue: 5, attacking: 5 };
    assert_eq!(g.deal(10), GarbageOutcome::Nothing);
}

#[test]
fn bot_controller_plays_a_move() {
    let board: Board = Board::new();
    let mut c = BotController::new();
    let r = c.update(&board, &[Event::PieceSpawned { new_in_queue: Piece::S }], false, None);
    assert_eq!(r, vec![Request::AddNextPiece(Piece::S), Request::RequestNextMove]);
    let mv = PlannedMove { hold: false, inputs: vec![Input::Left, Input::Cw], expected_location: t_at(3, 0) };
    let r = c.update(&board, &[Event::PieceFalling(t_at(4, 19), t_at(4, 0))], false, Some(mv));
    assert!(r.is_empty());
    assert!(c.controller().left);
    let r = c.update(&board, &[Event::PieceFalling(t_at(3, 19), t_at(3, 0))], false, None);
    assert!(r.is_empty());
    assert!(!c.controller().left);
    assert!(c.controller().rotate_right);
    let r = c.update(&board, &[Event::PieceFalling(t_at(3, 19), t_at(3, 0))], false, None);
    assert!(r.is_empty());
    assert!(c.controller().hard_drop);
    let placed = Event::PiecePlaced { piece: t_at(3, 0), locked: no_lock(), hard_drop_distance: Some(19) };
    let r = c.update(&board, &[placed], false, None);
    assert!(r.is_empty());
    assert_eq!(c.controller(), Controller::default());
}

#[test]
fn bot_controller_resets_on_misdrop_and_garbage() {
    let board: Board = Board::new();
    let mut c = BotController::new();
    let mv = PlannedMove { hold: true, inputs: vec![], expected_location: t_at(3, 0) };
    let r = c.update(&board, &[Event::SpawnDelayStart], false, Some(mv));
    assert!(r.is_empty());
    let r = c.update(&board, &[Event::PieceFalling(t_at(4, 19), t_at(4, 0))], false, None);
    assert!(r.is_empty());
    assert!(c.controller().hold);
    let placed = Event::PiecePlaced { piece: t_at(5, 0), locked: no_lock(), hard_drop_distance: None };
    let r = c.update(&board, &[placed], false, None);
    assert_eq!(r, vec![Request::Reset]);
    let r = c.update(&board, &[Event::SpawnDelayStart, Event::GarbageAdded(vec![3])], true, None);
    assert_eq!(r, vec![Request::PrepareNextMove, Request::Reset]);
    assert!(c.controller().hard_drop);
}

#[test]
fn executor_presses_movements() {
    let board: Board = Board::new();
    let mut todo = VecDeque::new();
    todo.push_back(PieceMovement::Right);
    let mut e = PieceMoveExecutor::new(false, todo, 0);
    let mut buttons = Controller::default();
    let placed = e.update(&mut buttons, &board, &[Event::PieceFalling(t_at(4, 19), t_at(4, 0))]);
    assert_eq!(placed, None);
    assert!(buttons.right);
    e.update(&mut buttons, &board, &[Event::PieceFalling(t_at(5, 19), t_at(5, 0))]);
    assert!(buttons.hard_drop);
    let placed = e.update(&mut buttons, &board, &[Event::PiecePlaced { piece: t_at(5, 0), locked: no_lock(), hard_drop_distance: Some(19) }]);
    assert_eq!(placed, Some(t_at(5, 0)));
}

#[test]
fn perfect_clear_priorities() {
    let fast = PcScore { long_delays: 1, last_placement_long: false, attack: 2 };
    let strong = PcScore { long_delays: 2, last_placement_long: false, attack: 6 };
    assert_eq!(PcPriority::Fastest.cmp(fast, strong), Ordering::Greater);
    assert_eq!(PcPriority::HighestAttack.cmp(fast, strong), Ordering::Less);
    assert_eq!(PcPriority::Fastest.cmp(strong, strong), Ordering::Equal);
    let late = PcScore { long_delays: 1, last_placement_long: true, attack: 2 };
    assert_eq!(PcPriority::Fastest.cmp(fast, late), Ordering::Greater);
}

#[test]
fn mirrors() {
    assert_eq!(mirror(Piece::S), Piece::Z);
    assert_eq!(mirror(Piece::J), Piece::L);
    assert_eq!(mirror(Piece::T), Piece::T);
    for p in [Piece::I, Piece::O, Piece::T, Piece::L, Piece::J, Piece::S, Piece::Z] {
        assert_eq!(mirror(mirror(p)), p);
    }
    let mut f = [0u16; 10];
    f[0] = 0b00_0000_0011;
    f[1] = 0b10_0000_0000;
    let m = mirror_field(f);
    assert_eq!(m[0], 0b11_0000_0000);
    assert_eq!(m[1], 0b00_0000_0001);
    assert_eq!(mirror_field(m), f);
    let mut bag = PieceSet::empty();
    bag.insert(Piece::S);
    bag.insert(Piece::I);
    let mb = mirror_bag(bag);
    assert!(mb.contains(Piece::Z) && mb.contains(Piece::I) && !mb.contains(Piece::S));
    assert_eq!(mirror_bag(mb), bag);
}

#[test]
fn opener_field_reads_low_rows() {
    let mut f = [[false; 10]; 40];
    f[0][1] = true;
    f[9][9] = true;
    f[10][0] = true;
    let mut b: Board = Board::new();
    b.set_field(f);
    let low = field(&b);
    assert_eq!(low[0], 0b10);
    assert_eq!(low[9], 0b10_0000_0000);
    assert_eq!(low[1], 0);
}

#[test]
fn info_plan() {
    let info = Info::PcLoop(PcInfo { depth: 2, plan: vec![(t_at(1, 1), no_lock())] });
    assert_eq!(info.plan().len(), 1);
    assert_eq!(Info::Book.plan().len(), 0);
    assert_ne!(BotPollState::Waiting, BotPollState::Dead);
}

#[test]
fn piece_sets() {
    let mut s = PieceSet::all();
    assert!(s.is_all() && s.len() == 7);
    s.remove(Piece::T);
    assert!(!s.contains(Piece::T) && s.len() == 6);
    assert_eq!(PieceSet::only(Piece::O).to_vec(), vec![Piece::O]);
    assert!(PieceSet::empty().is_empty());
}

#[test]
fn placement_kinds_and_combo_table() {
    assert_eq!(PlacementKind::get(0, TspinStatus::Mini), PlacementKind::MiniTspin);
    assert_eq!(PlacementKind::get(3, TspinStatus::Full), PlacementKind::Tspin3);
    assert_eq!(PlacementKind::get(4, TspinStatus::NoSpin), PlacementKind::Clear4);
    assert_eq!(PlacementKind::Tspin3.garbage(), 6);
    assert_eq!(PlacementKind::MiniTspin2.garbage(), 1);
    assert!(!PlacementKind::Tspin.is_clear());
    assert!(PlacementKind::MiniTspin1.is_hard());
    assert!(!PlacementKind::Clear3.is_hard());
    let table: Vec<u32> = (0..14).map(combo_garbage).collect();
    assert_eq!(table, vec![0, 0, 1, 1, 1, 2, 2, 3, 3, 4, 4, 4, 4, 4]);
    assert_eq!(Piece::L.to_char(), 'L');
    assert_eq!(Piece::Z.color(), CellColor::Z);
}

#[test]
fn rows() {
    let mut r: u16 = <u16 as Row>::empty();
    r.set(3, CellColor::T);
    assert!(r.get(3) && !r.get(4));
    assert_eq!(r, 0b1000);
    assert!(<u16 as Row>::solid().is_full());
    let mut c = ColoredRow::default();
    assert!(c.is_empty());
    c.set(0, CellColor::Garbage);
    assert_eq!(c.cell_color(0), CellColor::Garbage);
    assert!(c.get(0));
}

#[test]
fn waiting_states_count_down() {
    let config = GameConfig::default();
    let mut s = GameState::SpawnDelay(7);
    let (events, garbage) = wait_frame(&mut s, &config);
    assert_eq!(s, GameState::SpawnDelay(6));
    assert!(matches!(events.as_slice(), [Event::SpawnDelayStart]));
    assert!(!garbage);
    let mut s = GameState::SpawnDelay(1);
    let (events, _) = wait_frame(&mut s, &config);
    assert_eq!(s, GameState::SpawnDelay(0));
    assert!(matches!(events.as_slice(), [Event::FrameBeforePieceSpawns]));
    let mut s = GameState::LineClearDelay(0);
    let (events, garbage) = wait_frame(&mut s, &config);
    assert_eq!(s, GameState::SpawnDelay(7));
    assert!(matches!(events.as_slice(), [Event::EndOfLineClearDelay]));
    assert!(garbage);
    let mut s = GameState::GameOver;
    let (events, _) = wait_frame(&mut s, &config);
    assert!(matches!(events.as_slice(), [Event::GameOver]));

    let mut counters = GarbageCounters { garbage_queue: 2, attacking: 1 };
    let mut cleared = no_lock();
    cleared.cleared_lines = vec![0, 1];
    cleared.garbage_sent = 4;
    let (s, deal) = after_lock(&cleared, &mut counters, &config);
    assert_eq!(s, GameState::LineClearDelay(45));
    assert!(!deal);
    assert_eq!(counters, GarbageCounters { garbage_queue: 2, attacking: 5 });
    let (s, deal) = after_lock(&no_lock(), &mut counters, &config);
    assert_eq!(s, GameState::SpawnDelay(7));
    assert!(deal);
    let mut out = no_lock();
    out.locked_out = true;
    assert_eq!(after_lock(&out, &mut counters, &config).0, GameState::GameOver);
}

#[test]
fn a_finished_game_stays_finished() {
    let config = GameConfig::default();
    let mut s = GameState::GameOver;
    for _ in 0..3 {
        let (events, garbage) = wait_frame(&mut s, &config);
        assert_eq!(s, GameState::GameOver);
        assert!(matches!(events.as_slice(), [Event::GameOver]));
        assert!(!garbage);
    }
}

#[test]
fn garbage_rows_are_pushed_in_and_reported() {
    let mut b: Board = Board::new();
    let dead = add_garbage_rows(&mut b, &vec![2, 2, 7]);
    assert!(!dead);
    for x in 0..10 {
        assert_eq!(b.occupied(x, 0), x != 7);
        assert_eq!(b.occupied(x, 1), x != 2);
        assert_eq!(b.occupied(x, 2), x != 2);
        assert!(!b.occupied(x, 3));
    }
    let (events, over) = garbage_events(GarbageOutcome::Added(3), vec![2, 2, 7], dead);
    assert!(matches!(events.as_slice(), [Event::GarbageAdded(c)] if c == &vec![2, 2, 7]));
    assert!(!over);
    let mut f = [[false; 10]; 40];
    f[38][4] = true;
    let mut high: Board = Board::new();
    high.set_field(f);
    assert!(add_garbage_rows(&mut high, &vec![0, 0, 0]));
    let (events, over) = garbage_events(GarbageOutcome::Added(3), vec![0, 0, 0], true);
    assert!(matches!(events.as_slice(), [Event::GarbageAdded(_), Event::GameOver]));
    assert!(over);
    let (events, over) = garbage_events(GarbageOutcome::Sent(4), vec![], false);
    assert!(matches!(events.as_slice(), [Event::GarbageSent(4)]));
    assert!(!over);
    let (events, _) = garbage_events(GarbageOutcome::Nothing, vec![], false);
    assert!(events.is_empty());
}
