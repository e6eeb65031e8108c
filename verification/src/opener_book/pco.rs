//! The positions of the perfect-clear opener, in its six shapes.
use vstd::prelude::*;
use std::collections::HashMap;
use crate::board::Board;
use crate::piece::{FallingPiece, Piece, RotationState};
use crate::piece_set::PieceSet;
use super::{Opener, OpenerLine, book_key, build_lines, empty_low, file_entry, filed_by, grown, line_filed, placed, placed_at};

verus! {

/// The low field of the Grace System before its last pieces.
pub open spec fn grace_field() -> Seq<u16> {
    seq![0b1000111111u16, 0b1100111111, 0b1000111111, 0b0000111111, 0, 0, 0, 0, 0, 0]
}

/// The placements of `jol_zts`.
pub open spec fn jol_zts_line() -> Seq<FallingPiece> {
    seq![
        placed_at(Piece::J, RotationState::North, 1, 0),
        placed_at(Piece::O, RotationState::North, 1, 1),
        placed_at(Piece::L, RotationState::South, 1, 3),
        placed_at(Piece::T, RotationState::West, 9, 1),
        placed_at(Piece::S, RotationState::North, 8, 2),
        placed_at(Piece::Z, RotationState::North, 7, 0),
    ]
}

/// The placements of `loj_zts`.
pub open spec fn loj_zts_line() -> Seq<FallingPiece> {
    seq![
        placed_at(Piece::J, RotationState::South, 1, 3),
        placed_at(Piece::O, RotationState::North, 0, 1),
        placed_at(Piece::L, RotationState::North, 1, 0),
        placed_at(Piece::T, RotationState::West, 9, 1),
        placed_at(Piece::S, RotationState::North, 8, 2),
        placed_at(Piece::Z, RotationState::North, 7, 0),
    ]
}

/// The placements of `jol_stz`.
pub open spec fn jol_stz_line() -> Seq<FallingPiece> {
    seq![
        placed_at(Piece::J, RotationState::North, 1, 0),
        placed_at(Piece::O, RotationState::North, 1, 1),
        placed_at(Piece::L, RotationState::South, 1, 3),
        placed_at(Piece::T, RotationState::East, 3, 1),
        placed_at(Piece::S, RotationState::North, 5, 0),
        placed_at(Piece::Z, RotationState::North, 4, 2),
    ]
}

/// The placements of `loj_stz`.
pub open spec fn loj_stz_line() -> Seq<FallingPiece> {
    seq![
        placed_at(Piece::J, RotationState::South, 1, 3),
        placed_at(Piece::O, RotationState::North, 0, 1),
        placed_at(Piece::L, RotationState::North, 1, 0),
        placed_at(Piece::T, RotationState::East, 3, 1),
        placed_at(Piece::S, RotationState::North, 5, 0),
        placed_at(Piece::Z, RotationState::North, 4, 2),
    ]
}

/// The placements of `grace_i`.
pub open spec fn grace_i_line() -> Seq<FallingPiece> {
    seq![
        placed_at(Piece::I, RotationState::North, 2, 0),
        placed_at(Piece::S, RotationState::East, 4, 1),
        placed_at(Piece::Z, RotationState::East, 0, 1),
        placed_at(Piece::O, RotationState::North, 2, 1),
        placed_at(Piece::L, RotationState::South, 1, 3),
        placed_at(Piece::J, RotationState::South, 4, 3),
    ]
}

/// The placements of `grace_lj`.
pub open spec fn grace_lj_line() -> Seq<FallingPiece> {
    seq![
        placed_at(Piece::I, RotationState::North, 2, 3),
        placed_at(Piece::S, RotationState::East, 0, 2),
        placed_at(Piece::Z, RotationState::East, 4, 2),
        placed_at(Piece::O, RotationState::North, 2, 1),
        placed_at(Piece::L, RotationState::North, 4, 0),
        placed_at(Piece::J, RotationState::North, 1, 0),
    ]
}

/// The six shapes of the opener.
pub open spec fn pco_shapes() -> Seq<Seq<FallingPiece>> {
    seq![jol_zts_line(), loj_zts_line(), jol_stz_line(), loj_stz_line(), grace_i_line(), grace_lj_line()]
}

/// J, O and L on the left, Z, T and S on the right.
fn jol_zts() -> (l: OpenerLine)
    ensures
        l.wf(),
        l.encouragement == 860,
        l.placements@ == jol_zts_line(),
        l.from_board@ == empty_low(),
{
    let l = OpenerLine {
        placements: vec![
            placed(Piece::J, RotationState::North, 1, 0),
            placed(Piece::O, RotationState::North, 1, 1),
            placed(Piece::L, RotationState::South, 1, 3),
            placed(Piece::T, RotationState::West, 9, 1),
            placed(Piece::S, RotationState::North, 8, 2),
            placed(Piece::Z, RotationState::North, 7, 0),
        ],
        from_board: [0; 10],
        encouragement: 860,
    };
    assert(l.placements@ =~= jol_zts_line());
    assert(l.from_board@ =~= empty_low());
    l
}

/// L, O and J on the left, Z, T and S on the right.
fn loj_zts() -> (l: OpenerLine)
    ensures
        l.wf(),
        l.encouragement == 860,
        l.placements@ == loj_zts_line(),
        l.from_board@ == empty_low(),
{
    let l = OpenerLine {
        placements: vec![
            placed(Piece::J, RotationState::South, 1, 3),
            placed(Piece::O, RotationState::North, 0, 1),
            placed(Piece::L, RotationState::North, 1, 0),
            placed(Piece::T, RotationState::West, 9, 1),
            placed(Piece::S, RotationState::North, 8, 2),
            placed(Piece::Z, RotationState::North, 7, 0),
        ],
        from_board: [0; 10],
        encouragement: 860,
    };
    assert(l.placements@ =~= loj_zts_line());
    assert(l.from_board@ =~= empty_low());
    l
}

/// J, O and L on the left, S, T and Z on the left.
fn jol_stz() -> (l: OpenerLine)
    ensures
        l.wf(),
        l.encouragement == 860,
        l.placements@ == jol_stz_line(),
        l.from_board@ == empty_low(),
{
    let l = OpenerLine {
        placements: vec![
            placed(Piece::J, RotationState::North, 1, 0),
            placed(Piece::O, RotationState::North, 1, 1),
            placed(Piece::L, RotationState::South, 1, 3),
            placed(Piece::T, RotationState::East, 3, 1),
            placed(Piece::S, RotationState::North, 5, 0),
            placed(Piece::Z, RotationState::North, 4, 2),
        ],
        from_board: [0; 10],
        encouragement: 860,
    };
    assert(l.placements@ =~= jol_stz_line());
    assert(l.from_board@ =~= empty_low());
    l
}

/// L, O and J on the left, S, T and Z on the left.
fn loj_stz() -> (l: OpenerLine)
    ensures
        l.wf(),
        l.encouragement == 860,
        l.placements@ == loj_stz_line(),
        l.from_board@ == empty_low(),
{
    let l = OpenerLine {
        placements: vec![
            placed(Piece::J, RotationState::South, 1, 3),
            placed(Piece::O, RotationState::North, 0, 1),
            placed(Piece::L, RotationState::North, 1, 0),
            placed(Piece::T, RotationState::East, 3, 1),
            placed(Piece::S, RotationState::North, 5, 0),
            placed(Piece::Z, RotationState::North, 4, 2),
        ],
        from_board: [0; 10],
        encouragement: 860,
    };
    assert(l.placements@ =~= loj_stz_line());
    assert(l.from_board@ =~= empty_low());
    l
}

/// The Grace System on an I base.
fn grace_i() -> (l: OpenerLine)
    ensures
        l.wf(),
        l.encouragement == 200,
        l.placements@ == grace_i_line(),
        l.from_board@ == empty_low(),
{
    let l = OpenerLine {
        placements: vec![
            placed(Piece::I, RotationState::North, 2, 0),
            placed(Piece::S, RotationState::East, 4, 1),
            placed(Piece::Z, RotationState::East, 0, 1),
            placed(Piece::O, RotationState::North, 2, 1),
            placed(Piece::L, RotationState::South, 1, 3),
            placed(Piece::J, RotationState::South, 4, 3),
        ],
        from_board: [0; 10],
        encouragement: 200,
    };
    assert(l.placements@ =~= grace_i_line());
    assert(l.from_board@ =~= empty_low());
    l
}

/// The Grace System on an L and J base.
fn grace_lj() -> (l: OpenerLine)
    ensures
        l.wf(),
        l.encouragement == 200,
        l.placements@ == grace_lj_line(),
        l.from_board@ == empty_low(),
{
    let l = OpenerLine {
        placements: vec![
            placed(Piece::I, RotationState::North, 2, 3),
            placed(Piece::S, RotationState::East, 0, 2),
            placed(Piece::Z, RotationState::East, 4, 2),
            placed(Piece::O, RotationState::North, 2, 1),
            placed(Piece::L, RotationState::North, 4, 0),
            placed(Piece::J, RotationState::North, 1, 0),
        ],
        from_board: [0; 10],
        encouragement: 200,
    };
    assert(l.placements@ =~= grace_lj_line());
    assert(l.from_board@ =~= empty_low());
    l
}

/// The bonus of each shape: 860 for the four shapes with Z, T and S or S, T and Z, 200 for the
/// Grace System.
pub open spec fn pco_bonuses() -> Seq<i32> {
    seq![860i32, 860, 860, 860, 200, 200]
}

/// The opener's entry `v` under key `k` is one it files for a position along one of its shapes
/// from the empty field, with the shape's bonus.
pub open spec fn pco_filed_by<F: Fn(&Board, FallingPiece) -> bool>(placeable: F, k: u128, v: (Opener, i32)) -> bool {
    exists|w: int, path: Seq<int>|
        0 <= w < 6 && #[trigger] filed_by(placeable, empty_low(), PieceSet::full_set(), pco_shapes()[w], path, k, v, Opener::Pco, pco_bonuses()[w])
}

/// Files the opener's positions: those of its six shapes, then the Grace System's field with a
/// full bag and a bonus of 860.
pub fn init<F: Fn(&Board, FallingPiece) -> bool>(states: &mut HashMap<u128, (Opener, i32)>, placeable: &F)
    requires
        forall|b: Board, p: FallingPiece| b.wf() ==> #[trigger] placeable.requires((&b, p)),
    ensures
        grown(old(states)@, final(states)@, Opener::Pco, set![200i32, 860i32]),
        final(states)@.contains_key(book_key(grace_field(), PieceSet::full_set()) as u128),
        final(states)@[book_key(grace_field(), PieceSet::full_set()) as u128] == (Opener::Pco, 860i32),
        forall|k: int| 0 <= k < 6 ==> line_filed(final(states)@, *placeable, #[trigger] pco_shapes()[k], empty_low()),
        forall|k: u128| #[trigger] final(states)@.contains_key(k) && (!old(states)@.contains_key(k) || final(states)@[k] != old(states)@[k])
            ==> k == book_key(grace_field(), PieceSet::full_set()) as u128 || pco_filed_by(*placeable, k, final(states)@[k]),
{
    let ghost bonuses = set![200i32, 860i32];
    let shapes = vec![jol_zts(), loj_zts(), jol_stz(), loj_stz(), grace_i(), grace_lj()];
    build_lines(states, &shapes, Opener::Pco, Ghost(bonuses), placeable);
    let ghost a = states@;
    proof {
        assert forall|k: int| 0 <= k < 6 implies line_filed(a, *placeable, #[trigger] pco_shapes()[k], empty_low()) by {
            assert(line_filed(a, *placeable, shapes@[k].placements@, shapes@[k].from_board@));
        }
    }
    let field: [u16; 10] = [0b1000111111, 0b1100111111, 0b1000111111, 0b0000111111, 0, 0, 0, 0, 0, 0];
    assert(field@ =~= grace_field());
    file_entry(states, field, PieceSet::all(), (Opener::Pco, 860));
    proof {
        super::lemma_grown_insert(a, states@, Opener::Pco, bonuses);
        super::lemma_grown_trans(old(states)@, a, states@, Opener::Pco, bonuses, bonuses, bonuses);
        assert forall|k: int| 0 <= k < 6 implies line_filed(states@, *placeable, #[trigger] pco_shapes()[k], empty_low()) by {
            super::lemma_line_filed_grown(a, states@, Opener::Pco, bonuses, *placeable, pco_shapes()[k], empty_low());
        }
        let gk = book_key(grace_field(), PieceSet::full_set()) as u128;
        assert forall|k: u128| #[trigger] states@.contains_key(k) && (!old(states)@.contains_key(k) || states@[k] != old(states)@[k])
            implies k == gk || pco_filed_by(*placeable, k, states@[k]) by {
            if k != gk {
                assert(states@[k] == a[k] && a.contains_key(k));
                let (i, path) = choose|i: int, path: Seq<int>|
                    0 <= i < shapes@.len() && filed_by(*placeable, shapes@[i].from_board@, PieceSet::full_set(), shapes@[i].placements@, path, k, a[k], Opener::Pco, shapes@[i].encouragement);
                assert(shapes@[i].placements@ == pco_shapes()[i]);
                assert(shapes@[i].encouragement == pco_bonuses()[i]);
                assert(filed_by(*placeable, empty_low(), PieceSet::full_set(), pco_shapes()[i], path, k, states@[k], Opener::Pco, pco_bonuses()[i]));
            }
        }
    }
}

} // verus!
