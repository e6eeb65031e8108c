use cold_clear::board::Board;
use cold_clear::config::GameConfig;
use cold_clear::controller::Controller;
use cold_clear::executor::Event;
use cold_clear::frame::{FrameEnd, Game};
use cold_clear::game::{FallingState, GameState};
use cold_clear::moves::{find_moves, MovementMode, SpawnRule};
use cold_clear::piece::{FallingPiece, Piece, PieceMovement, PieceState, RotationState, TspinStatus};
use rand::SeedableRng;
use rand_pcg::Mcg128Xsl64;

fn spawn(p: Piece, board: &Board) -> FallingPiece {
    SpawnRule::Row19Or20.spawn(p, board).unwrap()
}

fn cell_sets(b: &Board, p: Piece, mode: MovementMode) -> Vec<(Vec<(i32, i32)>, TspinStatus)> {
    let found = find_moves(b, spawn(p, b), mode);
    let mut out = vec![];
    for f in &found {
        let mut cells: Vec<(i32, i32)> = f.location.cells().to_vec();
        cells.sort();
        out.push((cells, f.location.tspin));
    }
    out
}

#[test]
fn o_piece_lands_in_nine_columns() {
    let b: Board = Board::new();
    let found = find_moves(&b, spawn(Piece::O, &b), MovementMode::ZeroG);
    assert_eq!(found.len(), 9);
    for f in &found {
        assert_eq!(f.location.y, 0);
        assert!(f.inputs.movements.len() <= 32);
    }
    let home = found.iter().find(|f| f.location.x == 4).unwrap();
    assert_eq!(home.inputs.time, 0);
    assert!(home.inputs.movements.is_empty());
    let left = found.iter().find(|f| f.location.x == 3).unwrap();
    assert_eq!(left.inputs.time, 1);
    assert_eq!(left.inputs.movements, vec![PieceMovement::Left]);
    let far = found.iter().find(|f| f.location.x == 0).unwrap();
    assert_eq!(far.inputs.time, 7);
}

#[test]
fn i_and_s_pieces_have_seventeen_placements() {
    let b: Board = Board::new();
    for &p in &[Piece::I, Piece::S, Piece::Z] {
        let sets = cell_sets(&b, p, MovementMode::ZeroG);
        assert_eq!(sets.len(), 17);
        for i in 0..sets.len() {
            for j in i + 1..sets.len() {
                assert_ne!(sets[i], sets[j]);
            }
        }
    }
}

#[test]
fn every_mode_finds_the_floor_placements() {
    let b: Board = Board::new();
    for &mode in &[MovementMode::ZeroG, MovementMode::ZeroGComplete, MovementMode::TwentyG, MovementMode::HardDropOnly] {
        let found = find_moves(&b, spawn(Piece::O, &b), mode);
        assert!(!found.is_empty());
        for f in &found {
            assert!(b.on_stack(&f.location));
        }
    }
}

#[test]
fn hard_drop_only_on_a_high_stack_shifts_but_never_soft_drops() {
    let mut field = [[false; 10]; 40];
    for y in 0..17 {
        for x in 0..9 {
            field[y][x] = true;
        }
    }
    let mut b: Board = Board::new();
    b.set_field(field);
    let found = find_moves(&b, spawn(Piece::O, &b), MovementMode::HardDropOnly);
    assert_eq!(found.len(), 9);
    for f in &found {
        assert_eq!(f.location.y, 17);
        assert!(!f.inputs.movements.contains(&PieceMovement::SonicDrop));
    }
    let home = found.iter().find(|f| f.location.x == 4).unwrap();
    assert!(home.inputs.movements.is_empty());
}

#[test]
fn turns_use_the_rotation_system_kicks() {
    let b: Board = Board::new();
    let t = spawn(Piece::T, &b);
    let mut p = t;
    assert!(p.cw(&b));
    assert_eq!((p.kind.1, p.x, p.y), (RotationState::East, 4, 19));
    let i = spawn(Piece::I, &b);
    let mut p = i;
    assert!(p.cw(&b));
    assert_eq!((p.kind.1, p.x, p.y), (RotationState::East, 5, 19));
    let mut p = i;
    assert!(p.ccw(&b));
    assert_eq!((p.kind.1, p.x, p.y), (RotationState::West, 4, 18));
    let mut p = i;
    assert!(PieceMovement::Left.apply(&mut p, &b));
    assert_eq!(p.x, 3);
}

#[test]
fn t_spin_into_a_slot_is_full() {
    // A T-spin double slot: rows 0 and 1 filled but for a T-shaped gap at columns 3..6.
    let mut field = [[false; 10]; 40];
    for x in 0..10 {
        if x != 4 {
            field[0][x] = true;
        }
        if x < 3 || x > 5 {
            field[1][x] = true;
        }
    }
    field[2][3] = true;
    let mut b: Board = Board::new();
    b.set_field(field);
    let mut p = FallingPiece { kind: PieceState(Piece::T, RotationState::East), x: 4, y: 1, tspin: TspinStatus::NoSpin };
    assert!(!b.obstructed(&p));
    assert!(p.cw(&b));
    assert_eq!(p.kind.1, RotationState::South);
    assert_eq!((p.x, p.y), (4, 1));
    assert_eq!(p.tspin, TspinStatus::Full);
}

fn frames(game: &mut Game, rng: &mut Mcg128Xsl64, buttons: Controller, n: usize) -> Vec<Event> {
    let mut all = vec![];
    for _ in 0..n {
        let (events, _) = game.update(buttons, rng);
        all.extend(events);
    }
    all
}

#[test]
fn a_game_spawns_and_hard_drops_a_piece() {
    let mut rng = Mcg128Xsl64::seed_from_u64(3);
    let config = GameConfig::default();
    let mut game = Game::new(config, &mut rng);
    assert_eq!(game.board.next_queue().len(), config.next_queue_size as usize);
    let events = frames(&mut game, &mut rng, Controller::default(), 8);
    assert!(events.iter().any(|e| matches!(e, Event::PieceSpawned { .. })));
    assert!(matches!(game.state, GameState::Falling(_)));
    let drop = Controller { hard_drop: true, ..Controller::default() };
    let (events, deal) = game.update(drop, &mut rng);
    assert!(events.iter().any(|e| matches!(e, Event::PiecePlaced { hard_drop_distance: Some(_), .. })));
    assert!(deal);
    assert_eq!(game.state, GameState::SpawnDelay(config.spawn_delay));
}

#[test]
fn holding_with_an_empty_hold_waits_for_the_next_piece() {
    let mut rng = Mcg128Xsl64::seed_from_u64(5);
    let config = GameConfig::default();
    let mut game = Game::new(config, &mut rng);
    frames(&mut game, &mut rng, Controller::default(), 8);
    let kind = match game.state {
        GameState::Falling(f) => f.piece.kind.0,
        _ => panic!("no piece"),
    };
    let hold = Controller { hold: true, ..Controller::default() };
    let (events, _) = game.update(hold, &mut rng);
    assert!(matches!(events[0], Event::PieceHeld(p) if p == kind));
    assert_eq!(game.board.held_piece(), Some(kind));
    assert_eq!(game.state, GameState::SpawnDelay(config.spawn_delay));
}

#[test]
fn gravity_pulls_a_piece_down() {
    let mut rng = Mcg128Xsl64::seed_from_u64(9);
    let config = GameConfig::default();
    let mut game = Game::new(config, &mut rng);
    frames(&mut game, &mut rng, Controller::default(), 8);
    let y0 = match game.state {
        GameState::Falling(f) => f.piece.y,
        _ => panic!("no piece"),
    };
    frames(&mut game, &mut rng, Controller::default(), 200);
    match game.state {
        GameState::Falling(FallingState { piece, .. }) => assert!(piece.y < y0),
        _ => {}
    }
    let _ = FrameEnd::Falling;
}
