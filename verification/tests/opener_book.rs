use cold_clear::board::Board;
use cold_clear::opener_book::{check, field, get, mirror_bag, mirror_field, opener_book, placed, Opener};
use cold_clear::piece::{FallingPiece, Piece, RotationState};
use cold_clear::piece_set::PieceSet;
use std::collections::HashMap;

const BAG_SHIFT: u32 = 100;

fn key(rows: [u16; 10], bag_bits: u128) -> u128 {
    let mut k: u128 = 0;
    for y in (0..10).rev() {
        k = k * 1024 + rows[y] as u128;
    }
    k + (bag_bits << BAG_SHIFT)
}

fn one_cell_field() -> [u16; 10] {
    let mut f = [0u16; 10];
    f[0] = 1;
    f
}

#[test]
fn check_finds_direct_entry() {
    let mut book = HashMap::new();
    book.insert(key(one_cell_field(), 8), (Opener::Pco, 3));
    let r = check(&book, one_cell_field(), PieceSet::only(Piece::L));
    assert_eq!(r, Some((Opener::Pco, 3)));
}

#[test]
fn check_falls_back_to_mirror_image() {
    let mut mirrored = [0u16; 10];
    mirrored[0] = 512;
    let mut book = HashMap::new();
    // The mirror image of an L is a J.
    book.insert(key(mirrored, 16), (Opener::Viper, 5));
    let r = check(&book, one_cell_field(), PieceSet::only(Piece::L));
    assert_eq!(r, Some((Opener::Viper, 5)));
}

#[test]
fn check_misses_unknown_positions() {
    let mut book = HashMap::new();
    book.insert(key(one_cell_field(), 8), (Opener::Pco, 3));
    assert_eq!(check(&book, one_cell_field(), PieceSet::only(Piece::T)), None);
    assert_eq!(check(&book, [0u16; 10], PieceSet::only(Piece::L)), None);
}

#[test]
fn direct_entry_wins_over_mirror() {
    let mut mirrored = [0u16; 10];
    mirrored[0] = 512;
    let mut book = HashMap::new();
    book.insert(key(one_cell_field(), 8), (Opener::Pco, 1));
    book.insert(key(mirrored, 16), (Opener::Viper, 2));
    assert_eq!(check(&book, one_cell_field(), PieceSet::only(Piece::L)), Some((Opener::Pco, 1)));
}

#[test]
fn mirroring_twice_gives_back_the_field_and_bag() {
    let mut f = [0u16; 10];
    f[0] = 0b11_0000_0101;
    f[3] = 0b00_0111_0000;
    let m = mirror_field(f);
    assert_eq!(m[0], 0b10_1000_0011);
    assert_eq!(mirror_field(m), f);
    let mut bag = PieceSet::empty();
    bag.insert(Piece::L);
    bag.insert(Piece::S);
    bag.insert(Piece::T);
    let mb = mirror_bag(bag);
    assert!(mb.contains(Piece::J) && mb.contains(Piece::Z) && mb.contains(Piece::T));
    assert!(!mb.contains(Piece::L) && !mb.contains(Piece::S));
    assert_eq!(mirror_bag(mb), bag);
}

fn board_with_corner() -> Board {
    let mut b = Board::new();
    let mut cells = [[false; 10]; 40];
    cells[0][0] = true;
    b.set_field(cells);
    b
}

#[test]
fn get_reads_low_rows_and_full_bag() {
    let b = board_with_corner();
    assert_eq!(field(&b), one_cell_field());
    let mut book = HashMap::new();
    book.insert(key(one_cell_field(), 127), (Opener::Viper, 7));
    assert_eq!(get(&book, &b), Some((Opener::Viper, 7)));
}

#[test]
fn get_tries_held_piece_alone_with_full_bag() {
    let mut b = board_with_corner();
    b.hold(Piece::T);
    let mut book = HashMap::new();
    book.insert(key(one_cell_field(), 127), (Opener::Viper, 7));
    assert_eq!(get(&book, &b), Some((Opener::Viper, 7)));
    book.insert(key(one_cell_field(), 4), (Opener::Pco, 9));
    assert_eq!(get(&book, &b), Some((Opener::Pco, 9)));
}

#[test]
fn built_book_holds_the_fixed_entries() {
    let book = opener_book(&|_b: &Board, _p: FallingPiece| false);
    // with no placement admitted, only the two fixed positions are filed
    assert_eq!(book.len(), 2);
    let tsd = [0b1000100111, 0b0110000001, 0, 0, 0, 0, 0, 0, 0, 0];
    assert_eq!(check(&book, tsd, PieceSet::all()), Some((Opener::Viper, 2000)));
    let grace = [0b1000111111, 0b1100111111, 0b1000111111, 0b0000111111, 0, 0, 0, 0, 0, 0];
    assert_eq!(check(&book, grace, PieceSet::all()), Some((Opener::Pco, 860)));
}

#[test]
fn built_book_files_every_admitted_position() {
    let book = opener_book(&|_b: &Board, _p: FallingPiece| true);
    assert!(book.len() > 2);
    for (_, (opener, bonus)) in book.iter() {
        match opener {
            Opener::Viper => assert!(*bonus == 0 || *bonus == 2000),
            Opener::Pco => assert!(*bonus == 0 || *bonus == 200 || *bonus == 860),
        }
    }
    // the first placement of the Viper's T-spin double, the vertical I in the left column,
    // on an empty field, leaves a bag without the I
    let mut board: Board = Board::new();
    board.lock_piece(placed(Piece::I, RotationState::West, 0, 2));
    let low = field(&board);
    let mut bag = PieceSet::all();
    bag.remove(Piece::I);
    assert_eq!(check(&book, low, bag), Some((Opener::Viper, 0)));
}
