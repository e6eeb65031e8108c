use cold_clear::board::Board;
use cold_clear::evaluation::standard::Standard;
use cold_clear::modes::normal::{BotState, ThinkResult};
use cold_clear::modes::{ModeSwitchedBot, Task, TaskResult};
use cold_clear::moves::{InputList, MovementMode, Placement, SpawnRule};
use cold_clear::piece::{FallingPiece, Piece, PieceState, RotationState, TspinStatus};
use cold_clear::{BotMsg, Options};

fn o_at(x: i32) -> FallingPiece {
    FallingPiece { kind: PieceState(Piece::O, RotationState::North), x, y: 0, tspin: TspinStatus::NoSpin }
}

fn board_with_queue(pieces: &[Piece]) -> Board {
    let mut b = Board::new();
    for &p in pieces {
        b.add_next_piece(p);
    }
    b
}

fn options() -> Options {
    Options { use_hold: false, ..Options::default() }
}

/// A movement search that finds two placements for any piece: an O dropped in column 0 and
/// one dropped in columns 4 and 5.
fn o_moves(_board: &Board, _spawned: FallingPiece, _mode: MovementMode) -> Vec<Placement> {
    vec![
        Placement { inputs: InputList { movements: vec![], time: 3 }, location: o_at(0) },
        Placement { inputs: InputList { movements: vec![], time: 1 }, location: o_at(4) },
    ]
}

/// A movement search that finds nothing.
fn no_moves(_board: &Board, _spawned: FallingPiece, _mode: MovementMode) -> Vec<Placement> {
    vec![]
}

#[test]
fn options_default_values() {
    let o = Options::default();
    assert_eq!(o.mode, MovementMode::ZeroG);
    assert_eq!(o.spawn_rule, SpawnRule::Row19Or20);
    assert!(o.use_hold);
    assert!(o.speculate);
    assert!(o.pcloop.is_none());
    assert_eq!(o.min_nodes, 0);
    assert_eq!(o.max_nodes, 4_000_000_000);
    assert_eq!(o.threads, 1);
}

#[test]
fn spawn_rules_place_pieces_near_the_top() {
    let board: Board = Board::new();
    let p = SpawnRule::Row19Or20.spawn(Piece::T, &board).unwrap();
    assert_eq!((p.x, p.y), (4, 19));
    assert_eq!(p.kind, PieceState(Piece::T, RotationState::North));
    let q = SpawnRule::Row21AndFall.spawn(Piece::T, &board).unwrap();
    assert_eq!((q.x, q.y), (4, 20));
}

#[test]
fn bot_hands_out_the_root_once() {
    let mut bot = BotState::new(board_with_queue(&[Piece::O, Piece::T]), options());
    assert!(!bot.is_dead());
    assert!(bot.min_thinking_reached());
    let thinker = bot.think();
    assert!(thinker.is_ok());
    assert_eq!(bot.outstanding_thinks, 1);
    // the only leaf is out: a cycle can run, but finds nothing
    assert!(matches!(bot.think(), Err(true)));
}

#[test]
fn bot_expands_and_moves() {
    let mut bot = BotState::new(board_with_queue(&[Piece::O, Piece::T]), options());
    let thinker = bot.think().ok().unwrap();
    let result = thinker.think(&Standard::default(), &o_moves);
    assert!(matches!(result, ThinkResult::Known(_, ref ch) if ch.len() == 2));
    bot.finish_thinking(result);
    assert_eq!(bot.outstanding_thinks, 0);
    let eval = Standard::default();
    let (mv, info) = bot.next_move(&eval, 0).expect("a move is ready");
    assert!(mv.mv == o_at(0) || mv.mv == o_at(4));
    assert!(!mv.hold);
    assert_eq!(info.nodes, 3);
    assert_eq!(info.depth, 1);
    assert_eq!(info.original_rank, 0);
    assert_eq!(info.evaluation_result, mv.evaluation.value);
    assert_eq!(info.plan.len(), 1);
    assert_eq!(info.plan[0].0, mv.mv);
}

#[test]
fn bot_needs_enough_nodes_to_move() {
    let o = Options { min_nodes: 5, ..options() };
    let mut bot = BotState::new(board_with_queue(&[Piece::O, Piece::T]), o);
    assert!(!bot.min_thinking_reached());
    assert!(bot.next_move(&Standard::default(), 0).is_none());
}

#[test]
fn unmark_gives_the_leaf_back() {
    let mut bot = BotState::new(board_with_queue(&[Piece::O, Piece::T]), options());
    let thinker = bot.think().ok().unwrap();
    let _ = thinker;
    assert!(matches!(bot.think(), Err(true)));
    let mut bot2 = BotState::new(board_with_queue(&[Piece::O, Piece::T]), options());
    let t2 = bot2.think().ok().unwrap();
    let id = match t2.think(&Standard::default(), &o_moves) {
        ThinkResult::Known(id, _) => id,
        _ => panic!("the next piece is known"),
    };
    bot2.finish_thinking(ThinkResult::Unmark(id));
    assert!(bot2.think().is_ok());
}

#[test]
fn thinker_guesses_when_the_queue_runs_out() {
    let mut bot = BotState::new(board_with_queue(&[Piece::O]), options());
    let thinker = bot.think().ok().unwrap();
    let result = thinker.think(&Standard::default(), &o_moves);
    bot.finish_thinking(result);
    // the next leaf has an empty queue: its expansion guesses every piece of the bag
    let leaf = bot.think().ok().unwrap();
    match leaf.think(&Standard::default(), &no_moves) {
        ThinkResult::Speculated(_, groups) => {
            assert_eq!(groups.len(), 7);
            // the O was taken from the bag
            assert!(groups[1].is_none());
            assert!(groups[0].is_some() && groups[2].is_some());
        }
        _ => panic!("the next piece is not known"),
    }
}

#[test]
fn thinker_gives_the_leaf_back_without_guessing() {
    let o = Options { speculate: false, ..options() };
    let mut bot = BotState::new(board_with_queue(&[]), o);
    let thinker = bot.think().ok().unwrap();
    assert!(matches!(thinker.think(&Standard::default(), &o_moves), ThinkResult::Unmark(_)));
}

#[test]
fn reset_to_the_same_field_keeps_the_plan_as_a_line() {
    let mut bot = BotState::new(board_with_queue(&[Piece::O, Piece::T]), options());
    let thinker = bot.think().ok().unwrap();
    bot.finish_thinking(thinker.think(&Standard::default(), &o_moves));
    assert!(bot.can_reset());
    bot.reset([[false; 10]; 40], false, 0);
    // the old plan is kept as a line to look at first
    assert!(!bot.min_thinking_reached());
}

#[test]
fn reset_to_another_field_drops_the_lines() {
    let mut bot = BotState::new(board_with_queue(&[Piece::O, Piece::T]), options());
    bot.force_analysis_line(vec![o_at(4)]);
    assert!(!bot.min_thinking_reached());
    bot.reset([[false; 10]; 40], true, 0);
    assert!(bot.min_thinking_reached());
}

#[test]
fn mode_switched_bot_moves_on_request() {
    let mut bot = ModeSwitchedBot::new(board_with_queue(&[Piece::O, Piece::T]), options());
    let eval = Standard::default();
    let (made, tasks) = bot.think(&eval);
    assert!(made.is_none());
    assert_eq!(tasks.len(), 1);
    for task in tasks {
        let result = task.execute(&eval, &o_moves);
        assert!(matches!(result, TaskResult::NormalThink(ThinkResult::Known(_, _))));
        bot.task_complete(result);
    }
    bot.message(BotMsg::NextMove(0));
    let (made, _) = bot.think(&eval);
    let (mv, _) = made.expect("the requested move");
    assert!(mv.mv == o_at(0) || mv.mv == o_at(4));
    // the request was served
    let (again, _) = bot.think(&eval);
    assert!(again.is_none());
}

#[test]
fn mode_switched_bot_hands_out_at_most_one_task_per_thread() {
    let mut bot = ModeSwitchedBot::new(board_with_queue(&[Piece::O, Piece::T]), options());
    let (_, tasks) = bot.think(&Standard::default());
    assert_eq!(tasks.len(), 1);
    let (_, more) = bot.think(&Standard::default());
    assert_eq!(more.len(), 0);
    let _: Vec<Task> = more;
}

#[test]
fn mode_switched_bot_reports_death_and_resets() {
    let mut bot = ModeSwitchedBot::new(board_with_queue(&[Piece::O, Piece::T]), options());
    assert!(!bot.is_dead());
    assert!(bot.can_reset());
    bot.message(BotMsg::Reset { field: [[false; 10]; 40], b2b: false, combo: 0 });
    assert!(!bot.is_dead());
    bot.message(BotMsg::NewPiece(Piece::I));
    let (_, tasks) = bot.think(&Standard::default());
    assert_eq!(tasks.len(), 1);
}
