use vstd::prelude::*;
use crate::board::{
    Board, occ_grid, collides_g, drop_to_g, lemma_drop_fits, placed_grid, full_rows, clear_lines,
    kept_rows, row_full, empty_row, lemma_full_rows_mono, column_height,
    lemma_column_height_props, lemma_kept_full_len,
};
use crate::evaluation::features::{hgt, lemma_board_heights};
use crate::piece::{FallingPiece, Piece, PieceState, RotationState, TspinStatus, state_offset};

verus! {

/// The T-slot patterns that the evaluator looks for.
#[derive(Copy, Clone, Debug, PartialEq, Eq, Structural)]
pub enum Shape {
    /// A T-spin double slot open to the sky, overhang on the right.
    SkyRight,
    /// A T-spin double slot open to the sky, overhang on the left.
    SkyLeft,
    /// A T-spin triple twist pointing left.
    TstLeft,
    /// A T-spin triple twist pointing right.
    TstRight,
    /// A fin setup on the left.
    FinLeft,
    /// A fin setup on the right.
    FinRight,
}

/// How many columns a pattern's height window spans.
pub open spec fn shape_width(s: Shape) -> int {
    match s {
        Shape::FinLeft | Shape::FinRight => 4,
        _ => 3,
    }
}

/// The pattern `s` matches with its window starting at column `x`.
pub open spec fn shape_cond(g: Seq<Seq<bool>>, s: Shape, x: int) -> bool {
    match s {
        Shape::SkyRight => {
            let h1 = hgt(g, x + 1);
            let h2 = hgt(g, x + 2);
            h1 <= h2 - 1 && occ_grid(g, x, h2 + 1) && !occ_grid(g, x, h2) && occ_grid(g, x, h2 - 1)
        },
        Shape::SkyLeft => {
            let h1 = hgt(g, x);
            let h2 = hgt(g, x + 1);
            h2 <= h1 - 1 && occ_grid(g, x + 2, h1 + 1) && !occ_grid(g, x + 2, h1) && occ_grid(
                g,
                x + 2,
                h1 - 1,
            )
        },
        Shape::TstLeft => {
            let h1 = hgt(g, x);
            let h2 = hgt(g, x + 1);
            &&& h1 <= h2
            &&& occ_grid(g, x - 1, h2) == occ_grid(g, x - 1, h2 + 1)
            &&& occ_grid(g, x + 2, h2 + 1)
            &&& !occ_grid(g, x + 2, h2)
            &&& !occ_grid(g, x + 2, h2 - 1)
            &&& !occ_grid(g, x + 1, h2 - 2)
            &&& !occ_grid(g, x + 2, h2 - 2)
            &&& !occ_grid(g, x + 2, h2 - 3)
        },
        Shape::TstRight => {
            let h1 = hgt(g, x + 1);
            let h2 = hgt(g, x + 2);
            &&& h2 <= h1
            &&& occ_grid(g, x + 3, h1) == occ_grid(g, x + 3, h1 + 1)
            &&& occ_grid(g, x, h1 + 1)
            &&& !occ_grid(g, x, h1)
            &&& !occ_grid(g, x, h1 - 1)
            &&& !occ_grid(g, x, h1 - 2)
            &&& !occ_grid(g, x + 1, h1 - 2)
            &&& !occ_grid(g, x, h1 - 3)
        },
        Shape::FinLeft => {
            let h1 = hgt(g, x);
            let h2 = hgt(g, x + 1);
            &&& h1 <= h2 + 1
            &&& occ_grid(g, x + 2, h2 + 2) && occ_grid(g, x + 3, h2 + 2)
            &&& !occ_grid(g, x + 2, h2 + 1) && !occ_grid(g, x + 3, h2 + 1)
            &&& !occ_grid(g, x + 2, h2) && !occ_grid(g, x + 3, h2) && occ_grid(g, x + 4, h2)
            &&& !occ_grid(g, x + 2, h2 - 1) && !occ_grid(g, x + 3, h2 - 1)
            &&& occ_grid(g, x + 2, h2 - 2) && !occ_grid(g, x + 3, h2 - 2) && occ_grid(
                g,
                x + 4,
                h2 - 2,
            )
        },
        Shape::FinRight => {
            let h1 = hgt(g, x + 2);
            let h2 = hgt(g, x + 3);
            &&& h2 <= h1 + 1
            &&& occ_grid(g, x - 1, h1) && occ_grid(g, x - 1, h1 - 2)
            &&& occ_grid(g, x, h1 + 2) && occ_grid(g, x + 1, h1 + 2)
            &&& !occ_grid(g, x, h1 + 1) && !occ_grid(g, x + 1, h1 + 1)
            &&& !occ_grid(g, x, h1) && !occ_grid(g, x + 1, h1)
            &&& !occ_grid(g, x, h1 - 1) && !occ_grid(g, x + 1, h1 - 1)
            &&& !occ_grid(g, x, h1 - 2) && occ_grid(g, x + 1, h1 - 2)
        },
    }
}

/// A T piece in orientation `r` at `(x, y)`.
pub open spec fn t_piece(r: RotationState, x: int, y: int) -> FallingPiece {
    FallingPiece {
        kind: PieceState(Piece::T, r),
        x: x as i32,
        y: y as i32,
        tspin: TspinStatus::NoSpin,
    }
}

/// Where the T piece goes when pattern `s` matches at column `x`.
pub open spec fn shape_piece(g: Seq<Seq<bool>>, s: Shape, x: int) -> FallingPiece {
    match s {
        Shape::SkyRight => t_piece(RotationState::South, x + 1, hgt(g, x + 2)),
        Shape::SkyLeft => t_piece(RotationState::South, x + 1, hgt(g, x)),
        Shape::TstLeft => t_piece(RotationState::West, x + 2, hgt(g, x + 1) - 2),
        Shape::TstRight => t_piece(RotationState::East, x, hgt(g, x + 1) - 2),
        Shape::FinLeft => t_piece(RotationState::West, x + 3, hgt(g, x + 1) - 1),
        Shape::FinRight => t_piece(RotationState::East, x, hgt(g, x + 2) - 1),
    }
}

/// The first match of pattern `s`, scanning windows from column `x` rightwards.
pub open spec fn scan(g: Seq<Seq<bool>>, s: Shape, x: int) -> Option<FallingPiece>
    decreases 11 - x,
{
    if x < 0 || x > 10 - shape_width(s) {
        None
    } else if shape_cond(g, s, x) {
        Some(shape_piece(g, s, x))
    } else {
        scan(g, s, x + 1)
    }
}

/// Where a cave T-slot is, found from a twist piece dropped to the bottom.
pub open spec fn cave_spec(g: Seq<Seq<bool>>, start: FallingPiece) -> Option<FallingPiece> {
    let x = start.x as int;
    let y = drop_to_g(g, start, start.y as int);
    match start.kind.1 {
        RotationState::East => if !occ_grid(g, x - 1, y) && occ_grid(g, x - 1, y - 1) && occ_grid(
            g,
            x + 1,
            y - 1,
        ) && occ_grid(g, x - 1, y + 1) {
            Some(t_piece(RotationState::South, x, y))
        } else if !occ_grid(g, x + 1, y - 1) && !occ_grid(g, x + 2, y - 1) && !occ_grid(
            g,
            x + 1,
            y - 2,
        ) && occ_grid(g, x - 1, y) && occ_grid(g, x + 2, y) && occ_grid(g, x, y - 2) && occ_grid(
            g,
            x + 2,
            y - 2,
        ) {
            Some(t_piece(RotationState::South, x + 1, y - 1))
        } else {
            None
        },
        RotationState::West => if !occ_grid(g, x + 1, y) && occ_grid(g, x + 1, y + 1) && occ_grid(
            g,
            x + 1,
            y - 1,
        ) && occ_grid(g, x - 1, y - 1) {
            Some(t_piece(RotationState::South, x, y))
        } else if !occ_grid(g, x - 1, y - 1) && !occ_grid(g, x - 2, y - 1) && !occ_grid(
            g,
            x - 1,
            y - 2,
        ) && occ_grid(g, x + 1, y) && occ_grid(g, x - 2, y) && occ_grid(g, x - 2, y - 2)
            && occ_grid(g, x, y - 2) {
            Some(t_piece(RotationState::South, x - 1, y - 1))
        } else {
            None
        },
        _ => None,
    }
}

/// The grid has no full row.
pub open spec fn no_full_rows(g: Seq<Seq<bool>>) -> bool {
    forall|y: int| 0 <= y < 40 ==> !row_full(#[trigger] g[y])
}

/// All cells of `p` lie on the playfield.
pub open spec fn on_field(p: FallingPiece) -> bool {
    forall|i: int| #![trigger p.cell(i)] 0 <= i < 4 ==> 0 <= p.cell(i).0 < 10 && 0 <= p.cell(i).1 < 40
}

/// `p` fits: none of its cells is filled or outside the playfield.
pub open spec fn fits(g: Seq<Seq<bool>>, p: FallingPiece) -> bool {
    !collides_g(g, p, 0, 0)
}

/// A T piece's cells lie within one cell of its center.
pub proof fn lemma_t_offsets(r: RotationState, i: int)
    requires
        0 <= i < 4,
    ensures
        -1 <= state_offset(PieceState(Piece::T, r), i).0 <= 1,
        -1 <= state_offset(PieceState(Piece::T, r), i).1 <= 1,
{
}

/// A piece that fits lies on the playfield.
pub proof fn lemma_fits_on_field(g: Seq<Seq<bool>>, p: FallingPiece)
    requires
        fits(g, p),
    ensures
        on_field(p),
{
    assert forall|i: int| 0 <= i < 4 implies 0 <= #[trigger] p.cell(i).0 < 10 && 0 <= p.cell(i).1
        < 40 by {
        assert(!occ_grid(g, p.cell(i).0 + 0, p.cell(i).1 + 0));
    }
}

/// No row in `[lo, hi)` is full, so the full rows below `hi` are those below `lo`.
pub proof fn lemma_full_rows_skip(g: Seq<Seq<bool>>, lo: int, hi: int)
    requires
        0 <= lo <= hi,
        forall|y: int| lo <= y < hi ==> !row_full(#[trigger] g[y]),
    ensures
        full_rows(g, hi) == full_rows(g, lo),
    decreases hi,
{
    if hi > lo {
        lemma_full_rows_skip(g, lo, hi - 1);
    }
}

/// Placing a T piece on a grid without full rows fills at most the three rows it touches.
pub proof fn lemma_t_clears_at_most_three(g: Seq<Seq<bool>>, p: FallingPiece)
    requires
        g.len() == 40,
        forall|y: int| 0 <= y < 40 ==> (#[trigger] g[y]).len() == 10,
        no_full_rows(g),
        p.kind.0 == Piece::T,
        on_field(p),
    ensures
        full_rows(placed_grid(g, p), 40).len() <= 3,
{
    let pg = placed_grid(g, p);
    let a = if p.y - 1 < 0 {
        0
    } else {
        p.y - 1
    };
    let b = if p.y + 2 > 40 {
        40
    } else {
        p.y + 2
    };
    assert(0 <= p.y < 40) by {
        crate::piece::lemma_center(p.kind);
        let c = crate::piece::center_index(Piece::T);
        assert(p.cell(c) == (p.x as int, p.y as int));
        assert(0 <= p.cell(c).1 < 40);
    }
    assert forall|y: int| 0 <= y < 40 && (y < a || y >= b) implies !row_full(#[trigger] pg[y]) by {
        assert(!row_full(g[y]));
        let x = choose|x: int| 0 <= x < 10 && !g[y][x];
        if p.covers(x, y) {
            let i = choose|i: int| 0 <= i < 4 && #[trigger] p.cell(i) == (x, y);
            lemma_t_offsets(p.kind.1, i);
        }
        assert(!pg[y][x]);
    }
    lemma_full_rows_skip(pg, 0, a);
    lemma_full_rows_skip(pg, b, 40);
    lemma_full_rows_mono(pg, a, b);
    assert(full_rows(pg, 0).len() == 0);
}

/// The lowest row offset among the cells of a piece state.
pub open spec fn low_offset(s: PieceState) -> int {
    let a = state_offset(s, 0).1;
    let b = state_offset(s, 1).1;
    let c = state_offset(s, 2).1;
    let d = state_offset(s, 3).1;
    let ab = if a < b { a } else { b };
    let cd = if c < d { c } else { d };
    if ab < cd { ab } else { cd }
}

/// Every piece spans at most four rows.
pub proof fn lemma_piece_rows(s: PieceState, i: int)
    requires
        0 <= i < 4,
    ensures
        low_offset(s) <= state_offset(s, i).1 < low_offset(s) + 4,
{
}

/// Placing any piece on a grid without full rows fills at most the four rows it touches: a
/// lock clears at most four lines.
pub proof fn lemma_piece_clears_at_most_four(g: Seq<Seq<bool>>, p: FallingPiece)
    requires
        g.len() == 40,
        forall|y: int| 0 <= y < 40 ==> (#[trigger] g[y]).len() == 10,
        no_full_rows(g),
    ensures
        full_rows(placed_grid(g, p), 40).len() <= 4,
{
    let pg = placed_grid(g, p);
    let lo = p.y + low_offset(p.kind);
    let a = if lo < 0 {
        0
    } else if lo > 40 {
        40
    } else {
        lo
    };
    let b = if lo + 4 > 40 {
        40
    } else if lo + 4 < a {
        a
    } else {
        lo + 4
    };
    assert forall|y: int| 0 <= y < 40 && (y < a || y >= b) implies !row_full(#[trigger] pg[y]) by {
        assert(!row_full(g[y]));
        let x = choose|x: int| 0 <= x < 10 && !g[y][x];
        if p.covers(x, y) {
            let i = choose|i: int| 0 <= i < 4 && #[trigger] p.cell(i) == (x, y);
            lemma_piece_rows(p.kind, i);
        }
        assert(!pg[y][x]);
    }
    lemma_full_rows_skip(pg, 0, a);
    lemma_full_rows_skip(pg, b, 40);
    lemma_full_rows_mono(pg, a, b);
    assert(full_rows(pg, 0).len() == 0);
}

/// After a line clear no row is full.
pub proof fn lemma_clear_lines_not_full(g: Seq<Seq<bool>>)
    requires
        g.len() == 40,
    ensures
        no_full_rows(clear_lines(g)),
{
    lemma_kept_not_full(g, 40);
    lemma_kept_full_len(g, 40);
    assert forall|y: int| 0 <= y < 40 implies !row_full(#[trigger] clear_lines(g)[y]) by {
        if y >= kept_rows(g, 40).len() {
            assert(clear_lines(g)[y] == empty_row());
            assert(!empty_row()[0]);
        }
    }
}

proof fn lemma_kept_not_full(g: Seq<Seq<bool>>, n: int)
    requires
        0 <= n,
    ensures
        forall|j: int| 0 <= j < kept_rows(g, n).len() ==> !row_full(#[trigger] kept_rows(g, n)[j]),
    decreases n,
{
    if n > 0 {
        lemma_kept_not_full(g, n - 1);
        let prev = kept_rows(g, n - 1);
        assert forall|j: int| 0 <= j < kept_rows(g, n).len() implies !row_full(
            #[trigger] kept_rows(g, n)[j],
        ) by {
            if j < prev.len() {
                assert(kept_rows(g, n)[j] == prev[j]);
            }
        }
    }
}

fn t_piece_exec(r: RotationState, x: i32, y: i32) -> (p: FallingPiece)
    ensures
        p == t_piece(r, x as int, y as int),
{
    FallingPiece { kind: PieceState(Piece::T, r), x, y, tspin: TspinStatus::NoSpin }
}

/// Whether pattern `s` matches with its window starting at column `x`.
fn shape_cond_exec(board: &Board, s: Shape, x: i32) -> (b: bool)
    requires
        board.wf(),
        0 <= x,
        x + shape_width(s) <= 10,
    ensures
        b == shape_cond(board.grid(), s, x as int),
{
    proof {
        lemma_board_heights(board);
    }
    let h = board.column_heights();
    let xu = x as usize;
    match s {
        Shape::SkyRight => {
            let h1 = h[xu + 1];
            let h2 = h[xu + 2];
            h1 <= h2 - 1 && board.occupied(x, h2 + 1) && !board.occupied(x, h2) && board.occupied(
                x,
                h2 - 1,
            )
        },
        Shape::SkyLeft => {
            let h1 = h[xu];
            let h2 = h[xu + 1];
            h2 <= h1 - 1 && board.occupied(x + 2, h1 + 1) && !board.occupied(x + 2, h1)
                && board.occupied(x + 2, h1 - 1)
        },
        Shape::TstLeft => {
            let h1 = h[xu];
            let h2 = h[xu + 1];
            h1 <= h2 && board.occupied(x - 1, h2) == board.occupied(x - 1, h2 + 1)
                && board.occupied(x + 2, h2 + 1) && !board.occupied(x + 2, h2) && !board.occupied(
                x + 2,
                h2 - 1,
            ) && !board.occupied(x + 1, h2 - 2) && !board.occupied(x + 2, h2 - 2)
                && !board.occupied(x + 2, h2 - 3)
        },
        Shape::TstRight => {
            let h1 = h[xu + 1];
            let h2 = h[xu + 2];
            h2 <= h1 && board.occupied(x + 3, h1) == board.occupied(x + 3, h1 + 1)
                && board.occupied(x, h1 + 1) && !board.occupied(x, h1) && !board.occupied(x, h1 - 1)
                && !board.occupied(x, h1 - 2) && !board.occupied(x + 1, h1 - 2) && !board.occupied(
                x,
                h1 - 3,
            )
        },
        Shape::FinLeft => {
            let h1 = h[xu];
            let h2 = h[xu + 1];
            h1 <= h2 + 1 && board.occupied(x + 2, h2 + 2) && board.occupied(x + 3, h2 + 2)
                && !board.occupied(x + 2, h2 + 1) && !board.occupied(x + 3, h2 + 1)
                && !board.occupied(x + 2, h2) && !board.occupied(x + 3, h2) && board.occupied(
                x + 4,
                h2,
            ) && !board.occupied(x + 2, h2 - 1) && !board.occupied(x + 3, h2 - 1)
                && board.occupied(x + 2, h2 - 2) && !board.occupied(x + 3, h2 - 2)
                && board.occupied(x + 4, h2 - 2)
        },
        Shape::FinRight => {
            let h1 = h[xu + 2];
            let h2 = h[xu + 3];
            h2 <= h1 + 1 && board.occupied(x - 1, h1) && board.occupied(x - 1, h1 - 2)
                && board.occupied(x, h1 + 2) && board.occupied(x + 1, h1 + 2) && !board.occupied(
                x,
                h1 + 1,
            ) && !board.occupied(x + 1, h1 + 1) && !board.occupied(x, h1) && !board.occupied(
                x + 1,
                h1,
            ) && !board.occupied(x, h1 - 1) && !board.occupied(x + 1, h1 - 1)
                && !board.occupied(x, h1 - 2) && board.occupied(x + 1, h1 - 2)
        },
    }
}

/// Where the T piece goes when pattern `s` matches at column `x`.
fn shape_piece_exec(board: &Board, s: Shape, x: i32) -> (p: FallingPiece)
    requires
        board.wf(),
        0 <= x,
        x + shape_width(s) <= 10,
    ensures
        p == shape_piece(board.grid(), s, x as int),
{
    proof {
        lemma_board_heights(board);
    }
    let h = board.column_heights();
    let xu = x as usize;
    match s {
        Shape::SkyRight => t_piece_exec(RotationState::South, x + 1, h[xu + 2]),
        Shape::SkyLeft => t_piece_exec(RotationState::South, x + 1, h[xu]),
        Shape::TstLeft => t_piece_exec(RotationState::West, x + 2, h[xu + 1] - 2),
        Shape::TstRight => t_piece_exec(RotationState::East, x, h[xu + 1] - 2),
        Shape::FinLeft => t_piece_exec(RotationState::West, x + 3, h[xu + 1] - 1),
        Shape::FinRight => t_piece_exec(RotationState::East, x, h[xu + 2] - 1),
    }
}

/// The first window, from the left, where pattern `s` matches, and the T piece it calls for.
pub fn detect(board: &Board, s: Shape) -> (r: Option<FallingPiece>)
    requires
        board.wf(),
    ensures
        r == scan(board.grid(), s, 0),
{
    let w: i32 = match s {
        Shape::FinLeft | Shape::FinRight => 4,
        _ => 3,
    };
    let mut x: i32 = 0;
    while x <= 10 - w
        invariant
            board.wf(),
            0 <= x <= 11 - w,
            w == shape_width(s),
            scan(board.grid(), s, 0) == scan(board.grid(), s, x as int),
        decreases 11 - w - x,
    {
        if shape_cond_exec(board, s, x) {
            return Some(shape_piece_exec(board, s, x));
        }
        x = x + 1;
    }
    None
}

/// A T-spin double slot open to the sky with its overhang on the right.
pub fn sky_tslot_right(board: &Board) -> (r: Option<FallingPiece>)
    requires
        board.wf(),
    ensures
        r == scan(board.grid(), Shape::SkyRight, 0),
{
    detect(board, Shape::SkyRight)
}

/// A T-spin double slot open to the sky with its overhang on the left.
pub fn sky_tslot_left(board: &Board) -> (r: Option<FallingPiece>)
    requires
        board.wf(),
    ensures
        r == scan(board.grid(), Shape::SkyLeft, 0),
{
    detect(board, Shape::SkyLeft)
}

/// A T-spin triple twist pointing left.
pub fn tst_twist_left(board: &Board) -> (r: Option<FallingPiece>)
    requires
        board.wf(),
    ensures
        r == scan(board.grid(), Shape::TstLeft, 0),
{
    detect(board, Shape::TstLeft)
}

/// A T-spin triple twist pointing right.
pub fn tst_twist_right(board: &Board) -> (r: Option<FallingPiece>)
    requires
        board.wf(),
    ensures
        r == scan(board.grid(), Shape::TstRight, 0),
{
    detect(board, Shape::TstRight)
}

/// A fin setup on the left.
pub fn fin_left(board: &Board) -> (r: Option<FallingPiece>)
    requires
        board.wf(),
    ensures
        r == scan(board.grid(), Shape::FinLeft, 0),
{
    detect(board, Shape::FinLeft)
}

/// A fin setup on the right.
pub fn fin_right(board: &Board) -> (r: Option<FallingPiece>)
    requires
        board.wf(),
    ensures
        r == scan(board.grid(), Shape::FinRight, 0),
{
    detect(board, Shape::FinRight)
}

/// Drops the twist piece to the bottom and looks for a cave T-slot next to where it lands.
pub fn cave_tslot(board: &Board, starting_point: FallingPiece) -> (r: Option<FallingPiece>)
    requires
        board.wf(),
        starting_point.in_range(),
    ensures
        r == cave_spec(board.grid(), starting_point),
{
    let mut p = starting_point;
    p.sonic_drop(board);
    let x = p.x;
    let y = p.y;
    proof {
        assert(y as int == drop_to_g(board.grid(), starting_point, starting_point.y as int));
    }
    match p.kind.1 {
        RotationState::East => {
            if !board.occupied(x - 1, y) && board.occupied(x - 1, y - 1) && board.occupied(
                x + 1,
                y - 1,
            ) && board.occupied(x - 1, y + 1) {
                Some(t_piece_exec(RotationState::South, x, y))
            } else if !board.occupied(x + 1, y - 1) && !board.occupied(x + 2, y - 1)
                && !board.occupied(x + 1, y - 2) && board.occupied(x - 1, y) && board.occupied(
                x + 2,
                y,
            ) && board.occupied(x, y - 2) && board.occupied(x + 2, y - 2) {
                Some(t_piece_exec(RotationState::South, x + 1, y - 1))
            } else {
                None
            }
        },
        RotationState::West => {
            if !board.occupied(x + 1, y) && board.occupied(x + 1, y + 1) && board.occupied(
                x + 1,
                y - 1,
            ) && board.occupied(x - 1, y - 1) {
                Some(t_piece_exec(RotationState::South, x, y))
            } else if !board.occupied(x - 1, y - 1) && !board.occupied(x - 2, y - 1)
                && !board.occupied(x - 1, y - 2) && board.occupied(x + 1, y) && board.occupied(
                x - 2,
                y,
            ) && board.occupied(x - 2, y - 2) && board.occupied(x, y - 2) {
                Some(t_piece_exec(RotationState::South, x - 1, y - 1))
            } else {
                None
            }
        },
        _ => None,
    }
}


/// The first twist spot found, pointing left before pointing right.
pub open spec fn twist_spec(g: Seq<Seq<bool>>) -> Option<FallingPiece> {
    match scan(g, Shape::TstLeft, 0) {
        Some(p) => Some(p),
        None => scan(g, Shape::TstRight, 0),
    }
}

/// `1` when `c` holds, `0` otherwise.
pub open spec fn bit_count(c: bool) -> int {
    if c {
        1
    } else {
        0
    }
}

/// How many of the four diagonal neighbours of the center of `t` are filled.
pub open spec fn corner_count(g: Seq<Seq<bool>>, t: FallingPiece) -> int {
    bit_count(occ_grid(g, t.x - 1, t.y - 1)) + bit_count(occ_grid(g, t.x + 1, t.y - 1)) + bit_count(
        occ_grid(g, t.x - 1, t.y + 1),
    ) + bit_count(occ_grid(g, t.x + 1, t.y + 1))
}

/// The T-slot that a twist spot leads to: a cave slot next to where the twist piece lands, or
/// the twist spot itself when three corners are filled and it rests on the stack.
pub open spec fn twist_slot(g: Seq<Seq<bool>>) -> Option<FallingPiece> {
    match twist_spec(g) {
        None => None,
        Some(t) => match cave_spec(g, t) {
            Some(c) => Some(c),
            None => if corner_count(g, t) >= 3 && collides_g(g, t, 0, -1) {
                Some(t)
            } else {
                None
            },
        },
    }
}

/// Where the evaluator cuts out a T-slot: sky slots first, then twist spots, then fins.
pub open spec fn tslot_location(g: Seq<Seq<bool>>) -> Option<FallingPiece> {
    match scan(g, Shape::SkyLeft, 0) {
        Some(p) => Some(p),
        None => match scan(g, Shape::SkyRight, 0) {
            Some(p) => Some(p),
            None => match twist_slot(g) {
                Some(p) => Some(p),
                None => match scan(g, Shape::FinLeft, 0) {
                    Some(p) => Some(p),
                    None => scan(g, Shape::FinRight, 0),
                },
            },
        },
    }
}

/// The grid has forty rows of ten cells.
pub open spec fn shaped(g: Seq<Seq<bool>>) -> bool {
    g.len() == 40 && forall|y: int| 0 <= y < 40 ==> (#[trigger] g[y]).len() == 10
}

/// A found pattern is the piece of some matching window.
pub proof fn lemma_scan_found(g: Seq<Seq<bool>>, s: Shape, x: int)
    requires
        scan(g, s, x) is Some,
    ensures
        exists|x2: int|
            x <= x2 <= 10 - shape_width(s) && 0 <= x2 && shape_cond(g, s, x2) && scan(g, s, x)
                == Some(#[trigger] shape_piece(g, s, x2)),
    decreases 11 - x,
{
    if !(x < 0 || x > 10 - shape_width(s)) && !shape_cond(g, s, x) {
        lemma_scan_found(g, s, x + 1);
    }
}

/// The cells of a T piece in each orientation.
pub proof fn lemma_t_cells(p: FallingPiece)
    requires
        p.kind.0 == Piece::T,
    ensures
        p.kind.1 == RotationState::South ==> p.cell(0) == (p.x + 1, p.y as int) && p.cell(1) == (
            p.x as int,
            p.y as int,
        ) && p.cell(2) == (p.x - 1, p.y as int) && p.cell(3) == (p.x as int, p.y - 1),
        p.kind.1 == RotationState::West ==> p.cell(0) == (p.x as int, p.y - 1) && p.cell(1) == (
            p.x as int,
            p.y as int,
        ) && p.cell(2) == (p.x as int, p.y + 1) && p.cell(3) == (p.x - 1, p.y as int),
        p.kind.1 == RotationState::East ==> p.cell(0) == (p.x as int, p.y + 1) && p.cell(1) == (
            p.x as int,
            p.y as int,
        ) && p.cell(2) == (p.x as int, p.y - 1) && p.cell(3) == (p.x + 1, p.y as int),
{
}

/// A matching window yields a T piece on the playfield; twist pieces also fit.
pub proof fn lemma_shape_piece_ok(g: Seq<Seq<bool>>, s: Shape, x: int)
    requires
        shaped(g),
        0 <= x <= 10 - shape_width(s),
        shape_cond(g, s, x),
    ensures
        shape_piece(g, s, x).kind.0 == Piece::T,
        on_field(shape_piece(g, s, x)),
        shape_piece(g, s, x).in_range(),
        (s == Shape::TstLeft || s == Shape::TstRight) ==> fits(g, shape_piece(g, s, x)),
{
    let p = shape_piece(g, s, x);
    assert forall|c: int| 0 <= c < 10 implies 0 <= #[trigger] hgt(g, c) <= 40 by {
        lemma_column_height_props(g, c, 40);
    }
    lemma_t_cells(p);
    assert forall|i: int| 0 <= i < 4 implies 0 <= #[trigger] p.cell(i).0 < 10 && 0 <= p.cell(i).1
        < 40 by {
        if i == 0 {
        } else if i == 1 {
        } else if i == 2 {
        } else {
        }
    }
    if s == Shape::TstLeft || s == Shape::TstRight {
        assert forall|i: int| 0 <= i < 4 implies !#[trigger] occ_grid(
            g,
            p.cell(i).0 + 0,
            p.cell(i).1 + 0,
        ) by {
            if i == 0 {
            } else if i == 1 {
            } else if i == 2 {
            } else {
            }
        }
    }
}

/// A piece that fits has its cells on the playfield, so its position is in range.
proof fn lemma_fits_in_range(g: Seq<Seq<bool>>, p: FallingPiece)
    requires
        fits(g, p),
    ensures
        on_field(p),
        -2 <= p.x <= 11,
        -2 <= p.y <= 41,
{
    lemma_fits_on_field(g, p);
    crate::piece::lemma_offset_small(p.kind, 0);
    assert(0 <= p.cell(0).0 < 10 && 0 <= p.cell(0).1 < 40);
}

/// A cave slot found from a fitting twist piece is a T piece on the playfield.
pub proof fn lemma_cave_ok(g: Seq<Seq<bool>>, t: FallingPiece)
    requires
        shaped(g),
        t.kind.0 == Piece::T,
        t.in_range(),
        fits(g, t),
        cave_spec(g, t) is Some,
    ensures
        cave_spec(g, t)->0.kind.0 == Piece::T,
        on_field(cave_spec(g, t)->0),
        cave_spec(g, t)->0.in_range(),
{
    let y = drop_to_g(g, t, t.y as int);
    lemma_drop_fits(g, t, t.y as int);
    lemma_fits_in_range(g, t);
    let x = t.x as int;
    let c = cave_spec(g, t)->0;
    lemma_t_cells(t);
    assert(!occ_grid(g, t.cell(1).0 + 0, t.cell(1).1 + (y - t.y)));
    assert(!occ_grid(g, t.cell(3).0 + 0, t.cell(3).1 + (y - t.y)));
    assert(!occ_grid(g, t.cell(0).0 + 0, t.cell(0).1 + (y - t.y)));
    assert(!occ_grid(g, t.cell(2).0 + 0, t.cell(2).1 + (y - t.y)));
    lemma_t_cells(c);
    assert forall|i: int| 0 <= i < 4 implies 0 <= #[trigger] c.cell(i).0 < 10 && 0 <= c.cell(i).1
        < 40 by {
        if i == 0 {
        } else if i == 1 {
        } else if i == 2 {
        } else {
        }
    }
}

/// The location of a T-slot cutout is a T piece on the playfield.
pub proof fn lemma_tslot_location_ok(g: Seq<Seq<bool>>)
    requires
        shaped(g),
        tslot_location(g) is Some,
    ensures
        tslot_location(g)->0.kind.0 == Piece::T,
        on_field(tslot_location(g)->0),
        tslot_location(g)->0.in_range(),
{
    let shapes = seq![Shape::SkyLeft, Shape::SkyRight, Shape::TstLeft, Shape::TstRight, Shape::FinLeft, Shape::FinRight];
    assert forall|k: int| 0 <= k < 6 && (#[trigger] scan(g, shapes[k], 0)) is Some implies scan(
        g,
        shapes[k],
        0,
    )->0.kind.0 == Piece::T && on_field(scan(g, shapes[k], 0)->0) && scan(
        g,
        shapes[k],
        0,
    )->0.in_range() && ((shapes[k] == Shape::TstLeft || shapes[k] == Shape::TstRight) ==> fits(
        g,
        scan(g, shapes[k], 0)->0,
    )) by {
        lemma_scan_found(g, shapes[k], 0);
        let x2 = choose|x2: int|
            0 <= x2 <= 10 - shape_width(shapes[k]) && shape_cond(g, shapes[k], x2) && scan(
                g,
                shapes[k],
                0,
            ) == Some(#[trigger] shape_piece(g, shapes[k], x2));
        lemma_shape_piece_ok(g, shapes[k], x2);
    }
    assert(shapes[0] == Shape::SkyLeft && shapes[1] == Shape::SkyRight && shapes[2] == Shape::TstLeft
        && shapes[3] == Shape::TstRight && shapes[4] == Shape::FinLeft && shapes[5]
        == Shape::FinRight);
    if scan(g, Shape::SkyLeft, 0) is None && scan(g, Shape::SkyRight, 0) is None && twist_slot(g) is Some {
        let t = twist_spec(g)->0;
        if cave_spec(g, t) is Some {
            lemma_cave_ok(g, t);
        }
    }
}

} // verus!
