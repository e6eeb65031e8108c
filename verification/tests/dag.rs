use cold_clear::board::Board;
use cold_clear::dag::{ChildData, DagState, NodeId};
use cold_clear::evaluation::standard::{Reward, Value};
use cold_clear::piece::{FallingPiece, Piece, PieceState, RotationState, TspinStatus};

fn o_at(x: i32) -> FallingPiece {
    FallingPiece { kind: PieceState(Piece::O, RotationState::North), x, y: 0, tspin: TspinStatus::NoSpin }
}

fn board_with_queue(pieces: &[Piece]) -> Board {
    let mut b = Board::new();
    for &p in pieces {
        b.add_next_piece(p);
    }
    b
}

/// The board after `mv` was played from `board` the way the search plays it.
fn played(board: &Board, mv: FallingPiece) -> Board {
    let mut b = board.clone_board();
    b.lock_piece(mv);
    b.advance_queue();
    b
}

fn child(board: &Board, mv: FallingPiece, value: i32, reward: i32) -> ChildData {
    ChildData {
        mv,
        board: played(board, mv),
        evaluation: Value { value, spike: 0 },
        reward: Reward { value: reward, attack: -1 },
    }
}

#[test]
fn dag_starts_with_the_root_as_its_only_leaf() {
    let mut dag = DagState::new(board_with_queue(&[Piece::O, Piece::T, Piece::I]), false);
    assert_eq!(dag.nodes(), 1);
    assert_eq!(dag.depth(), 0);
    assert!(!dag.is_dead());
    let mut lines = vec![];
    let (id, _) = dag.find_and_mark_leaf(&mut lines).expect("the root is a leaf");
    assert_eq!(id, NodeId { generation: 0, slab_key: 0 });
    // the root is handed out, so no leaf is left
    assert!(dag.find_and_mark_leaf(&mut lines).is_none());
    dag.unmark(id);
    assert!(dag.find_and_mark_leaf(&mut lines).is_some());
}

#[test]
fn dag_ranks_children_best_first() {
    let board = board_with_queue(&[Piece::O, Piece::T, Piece::I]);
    let mut dag = DagState::new(board.clone_board(), false);
    let (id, leaf_board) = dag.find_and_mark_leaf(&mut vec![]).unwrap();
    let low = child(&leaf_board, o_at(0), 10, 0);
    let high = child(&leaf_board, o_at(4), 20, 5);
    dag.update_known(id, vec![low, high]);
    assert_eq!(dag.nodes(), 3);
    assert_eq!(dag.depth(), 1);
    let candidates = dag.get_next_candidates();
    assert_eq!(candidates.len(), 2);
    assert_eq!(candidates[0].mv, o_at(4));
    assert_eq!(candidates[0].evaluation, Value { value: 25, spike: 0 });
    assert_eq!(candidates[0].original_rank, 0);
    assert!(!candidates[0].hold);
    assert_eq!(candidates[1].mv, o_at(0));
    assert_eq!(candidates[1].evaluation, Value { value: 10, spike: 0 });
    let plan = dag.get_plan();
    assert_eq!(plan.len(), 1);
    assert_eq!(plan[0].0, o_at(4));
}

#[test]
fn dag_merges_equal_positions() {
    let board = board_with_queue(&[Piece::O, Piece::T, Piece::I]);
    let mut dag = DagState::new(board, false);
    let (id, leaf_board) = dag.find_and_mark_leaf(&mut vec![]).unwrap();
    // the same placement twice leads to the same position
    let a = child(&leaf_board, o_at(2), 10, 0);
    let b = child(&leaf_board, o_at(2), 10, 0);
    dag.update_known(id, vec![a, b]);
    assert_eq!(dag.nodes(), 2);
    assert_eq!(dag.get_next_candidates().len(), 2);
}

#[test]
fn dag_with_no_children_is_dead() {
    let mut dag = DagState::new(board_with_queue(&[Piece::O, Piece::T]), false);
    let (id, _) = dag.find_and_mark_leaf(&mut vec![]).unwrap();
    dag.update_known(id, vec![]);
    assert!(dag.is_dead());
    assert!(dag.get_next_candidates().is_empty());
    assert!(dag.get_plan().is_empty());
}

#[test]
fn dag_advances_to_the_chosen_child() {
    let board = board_with_queue(&[Piece::O, Piece::T, Piece::I]);
    let mut dag = DagState::new(board, false);
    let (id, leaf_board) = dag.find_and_mark_leaf(&mut vec![]).unwrap();
    dag.update_known(id, vec![child(&leaf_board, o_at(0), 10, 0), child(&leaf_board, o_at(4), 20, 5)]);
    dag.advance_move(o_at(4));
    assert_eq!(dag.board().next_queue(), vec![Piece::T, Piece::I]);
    assert!(dag.board().occupied(4, 0) && dag.board().occupied(5, 1));
    // the new root is a leaf of the generation after the old root's
    let (id, _) = dag.find_and_mark_leaf(&mut vec![]).unwrap();
    assert_eq!(id.generation, 1);
    // a node of the dropped generation is ignored
    dag.unmark(NodeId { generation: 0, slab_key: 0 });
}

#[test]
fn dag_follows_forced_lines_first() {
    let board = board_with_queue(&[Piece::O, Piece::T, Piece::I]);
    let mut dag = DagState::new(board, false);
    let (id, leaf_board) = dag.find_and_mark_leaf(&mut vec![]).unwrap();
    dag.update_known(id, vec![child(&leaf_board, o_at(0), 10, 0), child(&leaf_board, o_at(4), 20, 5)]);
    let mut lines = vec![vec![o_at(0)]];
    let (id, b) = dag.find_and_mark_leaf(&mut lines).unwrap();
    assert_eq!(id.generation, 1);
    assert!(b.occupied(0, 0) && b.occupied(1, 1));
    assert!(!b.occupied(4, 0));
    // the line was followed to its end and dropped
    assert!(lines.is_empty());
}

#[test]
fn dag_speculates_when_the_queue_runs_out() {
    let board = board_with_queue(&[Piece::O]);
    let mut dag = DagState::new(board, false);
    let (id, leaf_board) = dag.find_and_mark_leaf(&mut vec![]).unwrap();
    dag.update_known(id, vec![child(&leaf_board, o_at(0), 10, 0)]);
    // the child's generation does not know its piece
    let (id, child_board) = dag.find_and_mark_leaf(&mut vec![]).unwrap();
    assert_eq!(id.generation, 1);
    let mut groups: Vec<Option<Vec<ChildData>>> = vec![None, None, None, None, None, None, None];
    let mut with_t = child_board.clone_board();
    with_t.add_next_piece(Piece::T);
    let t = FallingPiece { kind: PieceState(Piece::T, RotationState::North), x: 5, y: 0, tspin: TspinStatus::NoSpin };
    groups[2] = Some(vec![child(&with_t, t, 30, 0)]);
    dag.update_speculated(id, groups);
    assert_eq!(dag.nodes(), 3);
    // learning the piece turns the speculation into knowledge
    dag.add_next_piece(Piece::T);
    let plan = dag.get_plan();
    assert_eq!(plan.len(), 2);
    assert_eq!(plan[1].0, t);
}

#[test]
fn dag_reset_detects_garbage() {
    // a stack that reaches every column: row 0 full but for column 0, and a block on column 0
    let mut old_field = [[false; 10]; 40];
    for x in 1..10 {
        old_field[0][x] = true;
    }
    old_field[1][0] = true;
    let mut board = board_with_queue(&[Piece::O, Piece::T]);
    board.set_field(old_field);
    let mut dag = DagState::new(board, false);
    // the same stack pushed up by a garbage row with its hole in column 3
    let mut field = [[false; 10]; 40];
    for x in 0..10 {
        field[0][x] = x != 3;
    }
    for x in 1..10 {
        field[1][x] = true;
    }
    field[2][0] = true;
    assert_eq!(dag.reset(field, false, 0), Some(1));
    assert_eq!(dag.nodes(), 1);
    assert!(dag.board().occupied(0, 2));
    // a different combo is no garbage
    assert_eq!(dag.reset(field, false, 3), None);
    // a field that is not the old one pushed up is no garbage either
    let mut other = [[false; 10]; 40];
    other[0][0] = true;
    other[1][5] = true;
    assert_eq!(dag.reset(other, false, 3), None);
}

#[test]
fn forced_lines_are_tried_from_the_last_and_dropped_when_blocked() {
    let board = board_with_queue(&[Piece::O, Piece::T, Piece::I]);
    let mut dag = DagState::new(board, false);
    let (id, leaf_board) = dag.find_and_mark_leaf(&mut vec![]).unwrap();
    dag.update_known(id, vec![child(&leaf_board, o_at(0), 10, 0), child(&leaf_board, o_at(4), 20, 5)]);
    // the last line starts with a placement no edge has: it is dropped, and the one before
    // it, longer than one placement, leads to the node of its first placement and is kept
    let blocked = vec![o_at(8)];
    let longer = vec![o_at(4), o_at(0)];
    let mut lines = vec![longer.clone(), blocked];
    let (first, b) = dag.find_and_mark_leaf(&mut lines).unwrap();
    assert_eq!(first.generation, 1);
    assert!(b.occupied(4, 0) && b.occupied(5, 1));
    assert_eq!(lines, vec![longer]);
    // the other line finds another leaf
    let (second, _) = dag.find_and_mark_leaf(&mut vec![vec![o_at(0)]]).unwrap();
    assert!(second != first);
}
