use cold_clear::board::Board;
use cold_clear::misa::{misa_field, misa_next, pick_misa_move, read_reply, reply_readable, MisaTarget};
use cold_clear::moves::{InputList, Placement};
use cold_clear::piece::{FallingPiece, Piece, PieceMovement, PieceState, RotationState, TspinStatus};

fn chars(s: &str) -> Vec<char> {
    s.chars().collect()
}

fn o_at(x: i32) -> FallingPiece {
    FallingPiece { kind: PieceState(Piece::O, RotationState::North), x, y: 0, tspin: TspinStatus::NoSpin }
}

#[test]
fn misa_reads_the_field_from_the_top_right() {
    let mut f = [[false; 10]; 40];
    f[0][0] = true;
    f[19][9] = true;
    let mut b: Board = Board::new();
    b.set_field(f);
    let s: String = misa_field(&b).into_iter().collect();
    assert_eq!(s.len(), 200);
    assert_eq!(&s[0..1], "2");
    assert_eq!(&s[199..200], "2");
    assert_eq!(s.matches('2').count(), 2);
}

#[test]
fn misa_reads_the_next_pieces_mirrored() {
    let s: String = misa_next(Some(Piece::S), &vec![Piece::L, Piece::T]).into_iter().collect();
    assert_eq!(s, "ZJ,T,");
    let s: String = misa_next(None, &vec![]).into_iter().collect();
    assert_eq!(s, "");
}

#[test]
fn misa_replies_are_read() {
    let line = chars("2|0|2,2,0;0,0,2\n");
    assert!(reply_readable(&line));
    let t = read_reply(&line).expect("a placement");
    assert_eq!(t.lines, 2);
    assert!(!t.uses_spin);
    assert!(t.target[19][9] && t.target[19][8] && !t.target[19][7]);
    assert!(t.target[18][7] && !t.target[18][9]);
    let spin = chars("0|1|");
    assert!(read_reply(&spin).unwrap().uses_spin);
    let stop = chars("-|0|");
    assert!(reply_readable(&stop));
    assert!(read_reply(&stop).is_none());
    // a cursor moved off the left of the field cannot be read
    assert!(!reply_readable(&chars("0|0|,,,,,,,,,,")));
}

#[test]
fn misa_placement_is_found_among_the_moves() {
    let mut b: Board = Board::new();
    b.add_next_piece(Piece::I);
    let mut target = [[false; 10]; 20];
    target[0][4] = true;
    target[0][5] = true;
    target[1][4] = true;
    target[1][5] = true;
    let t = MisaTarget { target, lines: 0, uses_spin: false };
    let found = |p: FallingPiece| Placement { inputs: InputList { movements: vec![PieceMovement::Right], time: 1 }, location: p };
    let (mv, after) = pick_misa_move(&b, Piece::O, &t, Some(vec![found(o_at(0)), found(o_at(4))]), None).expect("the O at 4");
    assert_eq!(mv.expected_location, o_at(4));
    assert!(!mv.hold);
    assert!(after.occupied(5, 1));
    assert!(pick_misa_move(&b, Piece::O, &t, Some(vec![found(o_at(0))]), None).is_none());
    let (mv, after) = pick_misa_move(&b, Piece::O, &t, Some(vec![]), Some(vec![found(o_at(4))])).expect("held");
    assert!(mv.hold);
    assert_eq!(after.held_piece(), Some(Piece::O));
}
