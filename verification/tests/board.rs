use cold_clear::board::Board;
use cold_clear::piece::{FallingPiece, Piece, PieceState, PlacementKind, RotationState, TspinStatus};
use cold_clear::piece_set::PieceSet;
use rand::SeedableRng;
use rand_pcg::Mcg128Xsl64;

fn piece(kind: Piece, r: RotationState, x: i32, y: i32) -> FallingPiece {
    FallingPiece { kind: PieceState(kind, r), x, y, tspin: TspinStatus::NoSpin }
}

fn field_with_rows(rows: &[(usize, &[usize])]) -> [[bool; 10]; 40] {
    let mut f = [[false; 10]; 40];
    for &(y, cols) in rows {
        for &x in cols {
            f[y][x] = true;
        }
    }
    f
}

#[test]
fn new_board_is_empty() {
    let b: Board = Board::new();
    assert_eq!(*b.column_heights(), [0; 10]);
    for y in 0..40 {
        for x in 0..10 {
            assert!(!b.occupied(x, y));
        }
    }
    assert!(b.occupied(-1, 0));
    assert!(b.occupied(10, 0));
    assert!(b.occupied(0, -1));
    assert!(b.occupied(0, 40));
    assert_eq!(b.held_piece(), None);
    assert!(!b.has_back_to_back_active());
    assert_eq!(b.next_queue(), Vec::<Piece>::new());
}

#[test]
fn lock_without_clear_raises_columns() {
    let mut b: Board = Board::new();
    let r = b.lock_piece(piece(Piece::I, RotationState::North, 1, 0));
    assert_eq!(r.placement_kind, PlacementKind::NoClear);
    assert_eq!(r.garbage_sent, 0);
    assert!(!r.perfect_clear);
    assert!(!r.locked_out);
    assert_eq!(r.combo, None);
    assert!(r.cleared_lines.is_empty());
    assert_eq!(*b.column_heights(), [1, 1, 1, 1, 0, 0, 0, 0, 0, 0]);
}

#[test]
fn single_clear_onto_empty_board_is_perfect_clear() {
    let mut b: Board = Board::new();
    b.set_field(field_with_rows(&[(0, &[4, 5, 6, 7, 8, 9])]));
    let r = b.lock_piece(piece(Piece::I, RotationState::North, 1, 0));
    assert_eq!(r.placement_kind, PlacementKind::Clear1);
    assert_eq!(r.cleared_lines, vec![0]);
    assert!(r.perfect_clear);
    assert_eq!(r.garbage_sent, 10);
    assert_eq!(*b.column_heights(), [0; 10]);
}

fn tetris_ready() -> Board {
    let mut b: Board = Board::new();
    let nine: &[usize] = &[0, 1, 2, 3, 4, 5, 6, 7, 8];
    b.set_field(field_with_rows(&[(0, nine), (1, nine), (2, nine), (3, nine), (4, &[0])]));
    b
}

#[test]
fn tetris_then_back_to_back() {
    let mut b = tetris_ready();
    let r = b.lock_piece(piece(Piece::I, RotationState::East, 9, 2));
    assert_eq!(r.placement_kind, PlacementKind::Clear4);
    assert_eq!(r.cleared_lines, vec![0, 1, 2, 3]);
    assert_eq!(r.garbage_sent, 4);
    assert!(!r.b2b);
    assert!(b.has_back_to_back_active());
    assert_eq!(r.combo, Some(0));
    assert_eq!(*b.column_heights(), [1, 0, 0, 0, 0, 0, 0, 0, 0, 0]);

    let nine: &[usize] = &[0, 1, 2, 3, 4, 5, 6, 7, 8];
    let mut f = field_with_rows(&[(0, nine), (1, nine), (2, nine), (3, nine), (4, &[0])]);
    f[0][0] = true;
    b.set_field(f);
    let r = b.lock_piece(piece(Piece::I, RotationState::East, 9, 2));
    assert_eq!(r.placement_kind, PlacementKind::Clear4);
    assert!(r.b2b);
    assert_eq!(r.combo, Some(1));
    assert_eq!(r.garbage_sent, 5);
}

#[test]
fn plain_clear_ends_back_to_back_and_miss_ends_combo() {
    let mut b = tetris_ready();
    b.lock_piece(piece(Piece::I, RotationState::East, 9, 2));
    assert!(b.has_back_to_back_active());
    b.set_field(field_with_rows(&[(0, &[0, 1, 2, 3, 4, 5, 6, 7]), (1, &[0])]));
    let r = b.lock_piece(piece(Piece::O, RotationState::North, 8, 0));
    assert_eq!(r.placement_kind, PlacementKind::Clear1);
    assert!(!b.has_back_to_back_active());
    assert_eq!(r.combo, Some(1));
    let r = b.lock_piece(piece(Piece::O, RotationState::North, 4, 0));
    assert_eq!(r.placement_kind, PlacementKind::NoClear);
    assert_eq!(r.combo, None);
}

#[test]
fn t_spin_double_counts_as_tspin() {
    let mut b: Board = Board::new();
    b.set_field(field_with_rows(&[
        (0, &[0, 1, 2, 3, 5, 6, 7, 8, 9]),
        (1, &[0, 1, 2, 6, 7, 8, 9]),
        (2, &[0]),
    ]));
    let mut t = piece(Piece::T, RotationState::South, 4, 1);
    t.tspin = TspinStatus::Full;
    let r = b.lock_piece(t);
    assert_eq!(r.placement_kind, PlacementKind::Tspin2);
    assert_eq!(r.garbage_sent, 4);
    assert_eq!(r.cleared_lines, vec![0, 1]);
}

#[test]
fn lock_above_row_twenty_locks_out() {
    let mut b: Board = Board::new();
    let r = b.lock_piece(piece(Piece::O, RotationState::North, 4, 25));
    assert!(r.locked_out);
    let r = b.lock_piece(piece(Piece::I, RotationState::East, 0, 20));
    assert!(!r.locked_out);
}

#[test]
fn hold_returns_previous_piece() {
    let mut b: Board = Board::new();
    assert_eq!(b.hold(Piece::T), None);
    assert_eq!(b.held_piece(), Some(Piece::T));
    assert_eq!(b.hold(Piece::I), Some(Piece::T));
    assert_eq!(b.held_piece(), Some(Piece::I));
}

#[test]
fn queue_and_bag() {
    let mut b: Board = Board::new();
    assert_eq!(b.get_next_piece(), Err(PieceSet::all()));
    b.add_next_piece(Piece::T);
    b.add_next_piece(Piece::I);
    assert_eq!(b.next_queue(), vec![Piece::T, Piece::I]);
    assert_eq!(b.get_next_piece(), Ok(Piece::T));
    assert_eq!(b.get_next_next_piece(), Some(Piece::I));
    assert!(!b.bag.contains(Piece::T));
    assert!(!b.bag.contains(Piece::I));
    assert_eq!(b.bag.len(), 5);
    let nb = b.next_bag();
    assert!(nb.is_all());
    assert_eq!(b.advance_queue(), Some(Piece::T));
    assert_eq!(b.next_queue(), vec![Piece::I]);
    for p in [Piece::O, Piece::L, Piece::J, Piece::S, Piece::Z] {
        b.add_next_piece(p);
    }
    assert!(b.bag.is_all());
}

#[test]
fn generated_pieces_come_from_the_bag() {
    let mut rng = Mcg128Xsl64::seed_from_u64(7);
    let mut b: Board = Board::new();
    let mut seen = Vec::new();
    for _ in 0..30 {
        let p = b.generate_next_piece(&mut rng);
        assert!(b.bag.contains(p));
        if !seen.contains(&p) {
            seen.push(p);
        }
    }
    assert!(seen.len() > 1);
    let mut only_t: Board = Board::new_with_state([[false; 10]; 40], PieceSet::only(Piece::T), None, false, 0);
    for _ in 0..5 {
        assert_eq!(only_t.generate_next_piece(&mut rng), Piece::T);
    }
    only_t.add_next_piece(Piece::T);
    assert!(only_t.bag.is_all());
}

#[test]
fn garbage_pushes_rows_up() {
    let mut b: Board = Board::new();
    b.set_field(field_with_rows(&[(0, &[3])]));
    let dead = b.add_garbage(5);
    assert!(!dead);
    for x in 0..10 {
        assert_eq!(b.occupied(x, 0), x != 5);
    }
    assert!(b.occupied(3, 1));
    assert_eq!(*b.column_heights(), [1, 1, 1, 2, 1, 0, 1, 1, 1, 1]);
    let mut f = [[false; 10]; 40];
    f[39][0] = true;
    b.set_field(f);
    assert!(b.add_garbage(0));
}

#[test]
fn field_roundtrip_and_rows() {
    let f = field_with_rows(&[(0, &[0, 9]), (3, &[4]), (39, &[2])]);
    let mut b: Board = Board::new();
    b.set_field(f);
    assert_eq!(b.get_field(), f);
    assert_eq!(b.get_row(0), 0b10_0000_0001u16);
    assert_eq!(b.get_row(3), 0b1_0000u16);
    assert_eq!(b.get_row(-1), 1023u16);
    assert_eq!(b.get_row(40), 0u16);
    assert_eq!(*b.column_heights(), [1, 0, 40, 0, 4, 0, 0, 0, 0, 1]);
    let c = b.to_compressed();
    assert_eq!(c.get_field(), f);
    let copy = b.clone_board();
    assert_eq!(copy.get_field(), f);
}

#[test]
fn pieces_drop_and_shift() {
    let mut b: Board = Board::new();
    b.set_field(field_with_rows(&[(0, &[4])]));
    let mut p = piece(Piece::T, RotationState::North, 4, 20);
    assert!(p.sonic_drop(&b));
    assert_eq!(p.y, 1);
    assert!(b.on_stack(&p));
    assert!(!b.obstructed(&p));
    assert!(!p.sonic_drop(&b));
    let mut q = piece(Piece::O, RotationState::North, 0, 5);
    assert!(!q.shift(&b, -1, 0));
    assert!(q.shift(&b, 1, 0));
    assert_eq!(q.x, 1);
    let cells = piece(Piece::T, RotationState::South, 4, 1).cells();
    assert_eq!(cells, [(5, 1), (4, 1), (3, 1), (4, 0)]);
}

#[test]
fn state_constructor_keeps_counters() {
    let b: Board = Board::new_with_state([[false; 10]; 40], PieceSet::empty(), Some(Piece::L), true, 3);
    assert!(b.bag.is_all());
    assert_eq!(b.held_piece(), Some(Piece::L));
    assert!(b.has_back_to_back_active());
    assert_eq!(b.combo, 3);
}

#[test]
fn seven_bag_runs_are_permutations() {
    let mut rng = Mcg128Xsl64::seed_from_u64(11);
    let mut b: Board = Board::new();
    let mut drawn = Vec::new();
    for _ in 0..17 {
        let p = b.generate_next_piece(&mut rng);
        b.add_next_piece(p);
        drawn.push(p);
    }
    for run in drawn.chunks(7) {
        for i in 0..run.len() {
            for j in i + 1..run.len() {
                assert_ne!(run[i], run[j]);
            }
        }
    }
    // three pieces of the third run are drawn: the bag holds the other four
    assert_eq!(b.bag.len(), 4);
    for p in &drawn[14..] {
        assert!(!b.bag.contains(*p));
    }
}

#[test]
fn next_bag_undoes_the_queued_pieces() {
    let mut bag = PieceSet::only(Piece::S);
    bag.insert(Piece::Z);
    let mut b: Board = Board::new_with_state([[false; 10]; 40], bag, None, false, 0);
    let start = b.bag;
    for p in [Piece::S, Piece::Z, Piece::T, Piece::I] {
        b.add_next_piece(p);
    }
    assert_eq!(b.next_bag(), start);
}

#[test]
fn field_read_back_and_set_again_keeps_the_cells() {
    let f = field_with_rows(&[(0, &[1, 2, 3]), (1, &[2])]);
    let mut a: Board = Board::new();
    a.set_field(f);
    let read = a.get_field();
    let mut b: Board = Board::new();
    b.set_field(read);
    assert_eq!(b.get_field(), f);
    assert_eq!(*b.column_heights(), *a.column_heights());
}
