use cold_clear::board::Board;
use cold_clear::modes::pcloop::{PcLooper, PcPriority};
use cold_clear::moves::{InputList, MovementMode, Placement};
use cold_clear::piece::{FallingPiece, Piece, PieceMovement, PieceState, RotationState, TspinStatus};

fn flat_i(x: i32) -> FallingPiece {
    FallingPiece { kind: PieceState(Piece::I, RotationState::North), x, y: 0, tspin: TspinStatus::NoSpin }
}

fn found(location: FallingPiece, time: u32) -> Placement {
    Placement { inputs: InputList { movements: vec![PieceMovement::Left], time }, location }
}

#[test]
fn pc_loop_starts_a_search_once_enough_pieces_are_known() {
    let mut board: Board = Board::new();
    for _ in 0..10 {
        board.add_next_piece(Piece::I);
    }
    let mut looper = PcLooper::new(&board, true, MovementMode::ZeroG, PcPriority::Fastest);
    assert!(looper.think().is_none());
    looper.add_next_piece(Piece::T);
    let solver = looper.think().expect("eleven pieces are known");
    assert_eq!(solver.queue.len(), 11);
    assert_eq!(solver.queue[10], Piece::T);
    assert!(solver.hold_enabled);
    // a search is running, so no other starts
    assert!(looper.think().is_none());
}

#[test]
fn pc_loop_plays_out_a_solution() {
    let mut board: Board = Board::new();
    board.add_next_piece(Piece::I);
    board.add_next_piece(Piece::I);
    let mut looper = PcLooper::new(&board, false, MovementMode::ZeroG, PcPriority::Fastest);
    // with nothing planned, the loop asks the search to stop and says none runs
    assert_eq!(looper.suggest_move().err(), Some(true));
    let search = |_: &Board, _: FallingPiece, _: MovementMode| vec![found(flat_i(5), 9), found(flat_i(1), 4), found(flat_i(1), 2)];
    looper.solution(Some(vec![flat_i(1), flat_i(5)]), &search);
    let (mv, info) = looper.suggest_move().ok().expect("a solution is planned");
    assert_eq!(mv.expected_location, flat_i(1));
    assert!(!mv.hold);
    assert_eq!(info.depth, 3);
    assert_eq!(info.plan.len(), 2);
    assert_eq!(info.plan[1].0, flat_i(5));
    assert!(looper.play_move(flat_i(1)));
    assert!(!looper.play_move(flat_i(5)));
    assert!(!looper.play_move(flat_i(5)));
}

#[test]
fn pc_loop_keeps_nothing_of_a_solution_without_moves() {
    let mut board: Board = Board::new();
    board.add_next_piece(Piece::I);
    let mut looper = PcLooper::new(&board, false, MovementMode::ZeroG, PcPriority::Fastest);
    let search = |_: &Board, _: FallingPiece, _: MovementMode| vec![found(flat_i(5), 1)];
    looper.solution(Some(vec![flat_i(1)]), &search);
    assert_eq!(looper.suggest_move().err(), Some(true));
}
