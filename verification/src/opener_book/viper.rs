//! The positions of the Viper opener: a T-spin double, then nine ways to a perfect clear.
use vstd::prelude::*;
use std::collections::HashMap;
use crate::board::Board;
use crate::piece::{FallingPiece, Piece, RotationState};
use crate::piece_set::PieceSet;
use super::{Opener, OpenerLine, book_key, build_lines, empty_low, file_entry, filed_by, grown, line_filed, placed, placed_at};

verus! {

/// The low field after the T-spin double.
pub open spec fn tsd_field() -> Seq<u16> {
    seq![0b1000100111u16, 0b0110000001, 0, 0, 0, 0, 0, 0, 0, 0]
}

/// The placements of `tsd`.
pub open spec fn tsd_line() -> Seq<FallingPiece> {
    seq![
        placed_at(Piece::I, RotationState::West, 0, 2),
        placed_at(Piece::L, RotationState::East, 1, 1),
        placed_at(Piece::O, RotationState::North, 2, 1),
        placed_at(Piece::S, RotationState::West, 5, 1),
        placed_at(Piece::J, RotationState::South, 8, 1),
        placed_at(Piece::Z, RotationState::North, 8, 2),
    ]
}

/// The placements of `pc1`.
pub open spec fn pc1_line() -> Seq<FallingPiece> {
    seq![
        placed_at(Piece::J, RotationState::North, 7, 0),
        placed_at(Piece::Z, RotationState::North, 7, 2),
        placed_at(Piece::L, RotationState::West, 9, 2),
        placed_at(Piece::O, RotationState::North, 0, 2),
        placed_at(Piece::S, RotationState::North, 2, 1),
        placed_at(Piece::O, RotationState::North, 3, 0),
        placed_at(Piece::I, RotationState::North, 3, 3),
        placed_at(Piece::T, RotationState::South, 5, 2),
    ]
}

/// The placements of `pc2`.
pub open spec fn pc2_line() -> Seq<FallingPiece> {
    seq![
        placed_at(Piece::J, RotationState::North, 7, 0),
        placed_at(Piece::Z, RotationState::North, 7, 2),
        placed_at(Piece::L, RotationState::West, 9, 2),
        placed_at(Piece::T, RotationState::East, 5, 2),
        placed_at(Piece::S, RotationState::East, 0, 2),
        placed_at(Piece::O, RotationState::North, 3, 0),
        placed_at(Piece::L, RotationState::South, 3, 2),
        placed_at(Piece::I, RotationState::North, 2, 3),
    ]
}

/// The placements of `pc3`.
pub open spec fn pc3_line() -> Seq<FallingPiece> {
    seq![
        placed_at(Piece::J, RotationState::North, 7, 0),
        placed_at(Piece::Z, RotationState::North, 7, 2),
        placed_at(Piece::L, RotationState::West, 9, 2),
        placed_at(Piece::S, RotationState::North, 4, 0),
        placed_at(Piece::O, RotationState::North, 2, 1),
        placed_at(Piece::S, RotationState::East, 0, 2),
        placed_at(Piece::T, RotationState::North, 5, 2),
        placed_at(Piece::I, RotationState::North, 2, 3),
    ]
}

/// The placements of `pc4`.
pub open spec fn pc4_line() -> Seq<FallingPiece> {
    seq![
        placed_at(Piece::J, RotationState::North, 7, 0),
        placed_at(Piece::Z, RotationState::North, 7, 2),
        placed_at(Piece::L, RotationState::West, 9, 2),
        placed_at(Piece::S, RotationState::East, 0, 2),
        placed_at(Piece::O, RotationState::North, 2, 1),
        placed_at(Piece::T, RotationState::East, 5, 2),
        placed_at(Piece::I, RotationState::West, 4, 2),
    ]
}

/// The placements of `pc5`.
pub open spec fn pc5_line() -> Seq<FallingPiece> {
    seq![
        placed_at(Piece::J, RotationState::North, 7, 0),
        placed_at(Piece::Z, RotationState::North, 7, 2),
        placed_at(Piece::L, RotationState::West, 9, 2),
        placed_at(Piece::O, RotationState::North, 0, 2),
        placed_at(Piece::I, RotationState::North, 2, 1),
        placed_at(Piece::T, RotationState::South, 5, 2),
    ]
}

/// The placements of `pc6`.
pub open spec fn pc6_line() -> Seq<FallingPiece> {
    seq![
        placed_at(Piece::J, RotationState::North, 7, 0),
        placed_at(Piece::Z, RotationState::North, 7, 2),
        placed_at(Piece::L, RotationState::West, 9, 2),
        placed_at(Piece::O, RotationState::North, 0, 2),
        placed_at(Piece::I, RotationState::North, 2, 1),
        placed_at(Piece::I, RotationState::North, 3, 3),
        placed_at(Piece::T, RotationState::South, 5, 2),
    ]
}

/// The placements of `pc7`.
pub open spec fn pc7_line() -> Seq<FallingPiece> {
    seq![
        placed_at(Piece::J, RotationState::North, 7, 0),
        placed_at(Piece::Z, RotationState::North, 7, 2),
        placed_at(Piece::L, RotationState::West, 9, 2),
        placed_at(Piece::S, RotationState::East, 0, 2),
        placed_at(Piece::Z, RotationState::North, 2, 2),
        placed_at(Piece::I, RotationState::North, 3, 1),
        placed_at(Piece::T, RotationState::North, 5, 2),
    ]
}

/// The placements of `pc8`.
pub open spec fn pc8_line() -> Seq<FallingPiece> {
    seq![
        placed_at(Piece::J, RotationState::North, 7, 0),
        placed_at(Piece::Z, RotationState::North, 7, 2),
        placed_at(Piece::L, RotationState::West, 9, 2),
        placed_at(Piece::O, RotationState::North, 0, 2),
        placed_at(Piece::T, RotationState::North, 2, 1),
        placed_at(Piece::S, RotationState::North, 4, 0),
        placed_at(Piece::I, RotationState::North, 3, 3),
        placed_at(Piece::I, RotationState::North, 4, 2),
    ]
}

/// The placements of `pc9`.
pub open spec fn pc9_line() -> Seq<FallingPiece> {
    seq![
        placed_at(Piece::J, RotationState::North, 7, 0),
        placed_at(Piece::Z, RotationState::North, 3, 2),
        placed_at(Piece::L, RotationState::West, 9, 2),
        placed_at(Piece::O, RotationState::North, 0, 2),
        placed_at(Piece::T, RotationState::North, 2, 1),
        placed_at(Piece::S, RotationState::North, 4, 0),
        placed_at(Piece::I, RotationState::North, 5, 3),
        placed_at(Piece::I, RotationState::North, 6, 2),
    ]
}

/// The nine ways to a perfect clear after the T-spin double.
pub open spec fn viper_ways() -> Seq<Seq<FallingPiece>> {
    seq![pc1_line(), pc2_line(), pc3_line(), pc4_line(), pc5_line(), pc6_line(), pc7_line(), pc8_line(), pc9_line()]
}

/// The T-spin double that opens the Viper.
fn tsd() -> (l: OpenerLine)
    ensures
        l.wf(),
        l.encouragement == 0,
        l.placements@ == tsd_line(),
        l.from_board@ == empty_low(),
{
    let l = OpenerLine {
        placements: vec![
            placed(Piece::I, RotationState::West, 0, 2),
            placed(Piece::L, RotationState::East, 1, 1),
            placed(Piece::O, RotationState::North, 2, 1),
            placed(Piece::S, RotationState::West, 5, 1),
            placed(Piece::J, RotationState::South, 8, 1),
            placed(Piece::Z, RotationState::North, 8, 2),
        ],
        from_board: [0; 10],
        encouragement: 0,
    };
    assert(l.placements@ =~= tsd_line());
    assert(l.from_board@ =~= empty_low());
    l
}

/// Way 1 to a perfect clear after the T-spin double.
fn pc1() -> (l: OpenerLine)
    ensures
        l.wf(),
        l.encouragement == 0,
        l.placements@ == pc1_line(),
        l.from_board@ == tsd_field(),
{
    let l = OpenerLine {
        placements: vec![
            placed(Piece::J, RotationState::North, 7, 0),
            placed(Piece::Z, RotationState::North, 7, 2),
            placed(Piece::L, RotationState::West, 9, 2),
            placed(Piece::O, RotationState::North, 0, 2),
            placed(Piece::S, RotationState::North, 2, 1),
            placed(Piece::O, RotationState::North, 3, 0),
            placed(Piece::I, RotationState::North, 3, 3),
            placed(Piece::T, RotationState::South, 5, 2),
        ],
        from_board: [0b1000100111, 0b0110000001, 0b0000000000, 0b0000000000, 0, 0, 0, 0, 0, 0],
        encouragement: 0,
    };
    assert(l.placements@ =~= pc1_line());
    assert(l.from_board@ =~= tsd_field());
    l
}

/// Way 2 to a perfect clear after the T-spin double.
fn pc2() -> (l: OpenerLine)
    ensures
        l.wf(),
        l.encouragement == 0,
        l.placements@ == pc2_line(),
        l.from_board@ == tsd_field(),
{
    let l = OpenerLine {
        placements: vec![
            placed(Piece::J, RotationState::North, 7, 0),
            placed(Piece::Z, RotationState::North, 7, 2),
            placed(Piece::L, RotationState::West, 9, 2),
            placed(Piece::T, RotationState::East, 5, 2),
            placed(Piece::S, RotationState::East, 0, 2),
            placed(Piece::O, RotationState::North, 3, 0),
            placed(Piece::L, RotationState::South, 3, 2),
            placed(Piece::I, RotationState::North, 2, 3),
        ],
        from_board: [0b1000100111, 0b0110000001, 0b0000000000, 0b0000000000, 0, 0, 0, 0, 0, 0],
        encouragement: 0,
    };
    assert(l.placements@ =~= pc2_line());
    assert(l.from_board@ =~= tsd_field());
    l
}

/// Way 3 to a perfect clear after the T-spin double.
fn pc3() -> (l: OpenerLine)
    ensures
        l.wf(),
        l.encouragement == 0,
        l.placements@ == pc3_line(),
        l.from_board@ == tsd_field(),
{
    let l = OpenerLine {
        placements: vec![
            placed(Piece::J, RotationState::North, 7, 0),
            placed(Piece::Z, RotationState::North, 7, 2),
            placed(Piece::L, RotationState::West, 9, 2),
            placed(Piece::S, RotationState::North, 4, 0),
            placed(Piece::O, RotationState::North, 2, 1),
            placed(Piece::S, RotationState::East, 0, 2),
            placed(Piece::T, RotationState::North, 5, 2),
            placed(Piece::I, RotationState::North, 2, 3),
        ],
        from_board: [0b1000100111, 0b0110000001, 0b0000000000, 0b0000000000, 0, 0, 0, 0, 0, 0],
        encouragement: 0,
    };
    assert(l.placements@ =~= pc3_line());
    assert(l.from_board@ =~= tsd_field());
    l
}

/// Way 4 to a perfect clear after the T-spin double.
fn pc4() -> (l: OpenerLine)
    ensures
        l.wf(),
        l.encouragement == 0,
        l.placements@ == pc4_line(),
        l.from_board@ == tsd_field(),
{
    let l = OpenerLine {
        placements: vec![
            placed(Piece::J, RotationState::North, 7, 0),
            placed(Piece::Z, RotationState::North, 7, 2),
            placed(Piece::L, RotationState::West, 9, 2),
            placed(Piece::S, RotationState::East, 0, 2),
            placed(Piece::O, RotationState::North, 2, 1),
            placed(Piece::T, RotationState::East, 5, 2),
            placed(Piece::I, RotationState::West, 4, 2),
        ],
        from_board: [0b1000100111, 0b0110000001, 0b0000000000, 0b0000000000, 0, 0, 0, 0, 0, 0],
        encouragement: 0,
    };
    assert(l.placements@ =~= pc4_line());
    assert(l.from_board@ =~= tsd_field());
    l
}

/// Way 5 to a perfect clear after the T-spin double.
fn pc5() -> (l: OpenerLine)
    ensures
        l.wf(),
        l.encouragement == 0,
        l.placements@ == pc5_line(),
        l.from_board@ == tsd_field(),
{
    let l = OpenerLine {
        placements: vec![
            placed(Piece::J, RotationState::North, 7, 0),
            placed(Piece::Z, RotationState::North, 7, 2),
            placed(Piece::L, RotationState::West, 9, 2),
            placed(Piece::O, RotationState::North, 0, 2),
            placed(Piece::I, RotationState::North, 2, 1),
            placed(Piece::T, RotationState::South, 5, 2),
        ],
        from_board: [0b1000100111, 0b0110000001, 0b0000000000, 0b0000000000, 0, 0, 0, 0, 0, 0],
        encouragement: 0,
    };
    assert(l.placements@ =~= pc5_line());
    assert(l.from_board@ =~= tsd_field());
    l
}

/// Way 6 to a perfect clear after the T-spin double.
fn pc6() -> (l: OpenerLine)
    ensures
        l.wf(),
        l.encouragement == 0,
        l.placements@ == pc6_line(),
        l.from_board@ == tsd_field(),
{
    let l = OpenerLine {
        placements: vec![
            placed(Piece::J, RotationState::North, 7, 0),
            placed(Piece::Z, RotationState::North, 7, 2),
            placed(Piece::L, RotationState::West, 9, 2),
            placed(Piece::O, RotationState::North, 0, 2),
            placed(Piece::I, RotationState::North, 2, 1),
            placed(Piece::I, RotationState::North, 3, 3),
            placed(Piece::T, RotationState::South, 5, 2),
        ],
        from_board: [0b1000100111, 0b0110000001, 0b0000000000, 0b0000000000, 0, 0, 0, 0, 0, 0],
        encouragement: 0,
    };
    assert(l.placements@ =~= pc6_line());
    assert(l.from_board@ =~= tsd_field());
    l
}

/// Way 7 to a perfect clear after the T-spin double.
fn pc7() -> (l: OpenerLine)
    ensures
        l.wf(),
        l.encouragement == 0,
        l.placements@ == pc7_line(),
        l.from_board@ == tsd_field(),
{
    let l = OpenerLine {
        placements: vec![
            placed(Piece::J, RotationState::North, 7, 0),
            placed(Piece::Z, RotationState::North, 7, 2),
            placed(Piece::L, RotationState::West, 9, 2),
            placed(Piece::S, RotationState::East, 0, 2),
            placed(Piece::Z, RotationState::North, 2, 2),
            placed(Piece::I, RotationState::North, 3, 1),
            placed(Piece::T, RotationState::North, 5, 2),
        ],
        from_board: [0b1000100111, 0b0110000001, 0b0000000000, 0b0000000000, 0, 0, 0, 0, 0, 0],
        encouragement: 0,
    };
    assert(l.placements@ =~= pc7_line());
    assert(l.from_board@ =~= tsd_field());
    l
}

/// Way 8 to a perfect clear after the T-spin double.
fn pc8() -> (l: OpenerLine)
    ensures
        l.wf(),
        l.encouragement == 0,
        l.placements@ == pc8_line(),
        l.from_board@ == tsd_field(),
{
    let l = OpenerLine {
        placements: vec![
            placed(Piece::J, RotationState::North, 7, 0),
            placed(Piece::Z, RotationState::North, 7, 2),
            placed(Piece::L, RotationState::West, 9, 2),
            placed(Piece::O, RotationState::North, 0, 2),
            placed(Piece::T, RotationState::North, 2, 1),
            placed(Piece::S, RotationState::North, 4, 0),
            placed(Piece::I, RotationState::North, 3, 3),
            placed(Piece::I, RotationState::North, 4, 2),
        ],
        from_board: [0b1000100111, 0b0110000001, 0b0000000000, 0b0000000000, 0, 0, 0, 0, 0, 0],
        encouragement: 0,
    };
    assert(l.placements@ =~= pc8_line());
    assert(l.from_board@ =~= tsd_field());
    l
}

/// Way 9 to a perfect clear after the T-spin double.
fn pc9() -> (l: OpenerLine)
    ensures
        l.wf(),
        l.encouragement == 0,
        l.placements@ == pc9_line(),
        l.from_board@ == tsd_field(),
{
    let l = OpenerLine {
        placements: vec![
            placed(Piece::J, RotationState::North, 7, 0),
            placed(Piece::Z, RotationState::North, 3, 2),
            placed(Piece::L, RotationState::West, 9, 2),
            placed(Piece::O, RotationState::North, 0, 2),
            placed(Piece::T, RotationState::North, 2, 1),
            placed(Piece::S, RotationState::North, 4, 0),
            placed(Piece::I, RotationState::North, 5, 3),
            placed(Piece::I, RotationState::North, 6, 2),
        ],
        from_board: [0b1000100111, 0b0110000001, 0b0000000000, 0b0000000000, 0, 0, 0, 0, 0, 0],
        encouragement: 0,
    };
    assert(l.placements@ =~= pc9_line());
    assert(l.from_board@ =~= tsd_field());
    l
}

/// The Viper's entry `v` under key `k` is one it files for a position along the T-spin double
/// from the empty field, or along a way to a perfect clear from the field after it; none of
/// these lines has a bonus.
pub open spec fn viper_filed_by<F: Fn(&Board, FallingPiece) -> bool>(placeable: F, k: u128, v: (Opener, i32)) -> bool {
    ||| exists|path: Seq<int>| filed_by(placeable, empty_low(), PieceSet::full_set(), tsd_line(), path, k, v, Opener::Viper, 0)
    ||| exists|w: int, path: Seq<int>|
        0 <= w < 9 && #[trigger] filed_by(placeable, tsd_field(), PieceSet::full_set(), viper_ways()[w], path, k, v, Opener::Viper, 0)
}

/// Files the Viper's positions: those of the T-spin double and of the ways to a perfect clear
/// after it, then the field after the T-spin double, with a full bag and a bonus of 2000.
pub fn init<F: Fn(&Board, FallingPiece) -> bool>(states: &mut HashMap<u128, (Opener, i32)>, placeable: &F)
    requires
        forall|b: Board, p: FallingPiece| b.wf() ==> #[trigger] placeable.requires((&b, p)),
    ensures
        grown(old(states)@, final(states)@, Opener::Viper, set![0i32, 2000i32]),
        final(states)@.contains_key(book_key(tsd_field(), PieceSet::full_set()) as u128),
        final(states)@[book_key(tsd_field(), PieceSet::full_set()) as u128] == (Opener::Viper, 2000i32),
        line_filed(final(states)@, *placeable, tsd_line(), empty_low()),
        forall|k: int| 0 <= k < 9 ==> line_filed(final(states)@, *placeable, #[trigger] viper_ways()[k], tsd_field()),
        forall|k: u128| #[trigger] final(states)@.contains_key(k) && (!old(states)@.contains_key(k) || final(states)@[k] != old(states)@[k])
            ==> k == book_key(tsd_field(), PieceSet::full_set()) as u128 || viper_filed_by(*placeable, k, final(states)@[k]),
{
    let ghost bonuses = set![0i32, 2000i32];
    let first = vec![tsd()];
    build_lines(states, &first, Opener::Viper, Ghost(bonuses), placeable);
    let ghost a = states@;
    proof {
        assert(first@[0].placements@ == tsd_line());
        assert(line_filed(a, *placeable, first@[0].placements@, first@[0].from_board@));
    }
    let ways = vec![pc1(), pc2(), pc3(), pc4(), pc5(), pc6(), pc7(), pc8(), pc9()];
    build_lines(states, &ways, Opener::Viper, Ghost(bonuses), placeable);
    let ghost b = states@;
    proof {
        assert forall|k: int| 0 <= k < 9 implies line_filed(b, *placeable, #[trigger] viper_ways()[k], tsd_field()) by {
            assert(line_filed(b, *placeable, ways@[k].placements@, ways@[k].from_board@));
        }
    }
    let field: [u16; 10] = [0b1000100111, 0b0110000001, 0, 0, 0, 0, 0, 0, 0, 0];
    assert(field@ =~= tsd_field());
    file_entry(states, field, PieceSet::all(), (Opener::Viper, 2000));
    proof {
        super::lemma_grown_insert(b, states@, Opener::Viper, bonuses);
        super::lemma_grown_trans(old(states)@, a, b, Opener::Viper, bonuses, bonuses, bonuses);
        super::lemma_grown_trans(old(states)@, b, states@, Opener::Viper, bonuses, bonuses, bonuses);
        super::lemma_grown_trans(a, b, states@, Opener::Viper, bonuses, bonuses, bonuses);
        super::lemma_line_filed_grown(a, states@, Opener::Viper, bonuses, *placeable, tsd_line(), empty_low());
        assert forall|k: int| 0 <= k < 9 implies line_filed(states@, *placeable, #[trigger] viper_ways()[k], tsd_field()) by {
            super::lemma_line_filed_grown(b, states@, Opener::Viper, bonuses, *placeable, viper_ways()[k], tsd_field());
        }
        let tk = book_key(tsd_field(), PieceSet::full_set()) as u128;
        assert forall|k: u128| #[trigger] states@.contains_key(k) && (!old(states)@.contains_key(k) || states@[k] != old(states)@[k])
            implies k == tk || viper_filed_by(*placeable, k, states@[k]) by {
            if k != tk {
                assert(states@[k] == b[k] && b.contains_key(k));
                if a.contains_key(k) && b[k] == a[k] {
                    let (i, path) = choose|i: int, path: Seq<int>|
                        0 <= i < first@.len() && filed_by(*placeable, first@[i].from_board@, PieceSet::full_set(), first@[i].placements@, path, k, a[k], Opener::Viper, first@[i].encouragement);
                    assert(i == 0);
                    assert(filed_by(*placeable, empty_low(), PieceSet::full_set(), tsd_line(), path, k, states@[k], Opener::Viper, 0));
                } else {
                    let (i, path) = choose|i: int, path: Seq<int>|
                        0 <= i < ways@.len() && filed_by(*placeable, ways@[i].from_board@, PieceSet::full_set(), ways@[i].placements@, path, k, b[k], Opener::Viper, ways@[i].encouragement);
                    assert(ways@[i].placements@ == viper_ways()[i]);
                    assert(filed_by(*placeable, tsd_field(), PieceSet::full_set(), viper_ways()[i], path, k, states@[k], Opener::Viper, 0));
                }
            }
        }
    }
}

} // verus!
