use vstd::prelude::*;
use std::collections::VecDeque;
use crate::piece::{
    CellColor, piece_color, TspinStatus, lemma_center, center_index,
    FallingPiece, Piece, PlacementKind, LockResult, lemma_offset_small, combo_garbage,
    combo_garbage_spec, placement_kind_spec,
};
use crate::piece_set::PieceSet;
use crate::row::Row;
use crate::rng::choose_piece;
use rand_pcg::Mcg128Xsl64;

verus! {

broadcast use crate::piece_set::PieceSet::lemma_has, crate::piece_set::PieceSet::lemma_has_const;

/// Number of columns of the playfield.
pub const WIDTH: usize = 10;

/// Number of rows of the playfield.
pub const HEIGHT: usize = 40;

/// A playfield with its queue, hold slot, bag and combo state.
#[derive(Clone, Debug)]
pub struct Board<R = u16> {
    cells: Vec<R>,
    column_heights: [i32; 10],
    pub combo: u32,
    pub b2b_bonus: bool,
    pub hold_piece: Option<Piece>,
    next_pieces: VecDeque<Piece>,
    pub bag: PieceSet,
}

/// Cell `(x, y)` of grid `g` is filled or lies outside the playfield.
pub open spec fn occ_grid(g: Seq<Seq<bool>>, x: int, y: int) -> bool {
    x < 0 || y < 0 || x >= 10 || y >= 40 || g[y][x]
}

/// Some cell of `p`, moved by `(dx, dy)`, is filled or outside the playfield of grid `g`.
pub open spec fn collides_g(g: Seq<Seq<bool>>, p: FallingPiece, dx: int, dy: int) -> bool {
    exists|i: int| 0 <= i < 4 && #[trigger] occ_grid(g, p.cell(i).0 + dx, p.cell(i).1 + dy)
}

/// The row that the center of `p`, falling from row `y`, comes to rest on in grid `g`.
pub open spec fn drop_to_g(g: Seq<Seq<bool>>, p: FallingPiece, y: int) -> int
    decreases y - i32::MIN,
{
    if y - 1 < i32::MIN + 3 || collides_g(g, p, 0, y - 1 - p.y) {
        y
    } else {
        drop_to_g(g, p, y - 1)
    }
}

/// A piece that fits where it starts still fits where it comes to rest.
pub proof fn lemma_drop_fits(g: Seq<Seq<bool>>, p: FallingPiece, y: int)
    requires
        !collides_g(g, p, 0, y - p.y),
    ensures
        !collides_g(g, p, 0, drop_to_g(g, p, y) - p.y),
        drop_to_g(g, p, y) <= y,
    decreases y - i32::MIN,
{
    if !(y - 1 < i32::MIN + 3 || collides_g(g, p, 0, y - 1 - p.y)) {
        lemma_drop_fits(g, p, y - 1);
    }
}

/// The occupancy of a row.
pub open spec fn row_view<R: Row>(r: R) -> Seq<bool> {
    Seq::new(10, |x: int| r.filled(x))
}

/// The occupancy of a sequence of rows.
pub open spec fn grid_of<R: Row>(rows: Seq<R>) -> Seq<Seq<bool>> {
    Seq::new(rows.len(), |y: int| row_view(rows[y]))
}

/// All ten cells of the row are filled.
pub open spec fn row_full(r: Seq<bool>) -> bool {
    forall|x: int| 0 <= x < 10 ==> #[trigger] r[x]
}

/// No cell of the row is filled.
pub open spec fn row_empty(r: Seq<bool>) -> bool {
    forall|x: int| 0 <= x < 10 ==> !#[trigger] r[x]
}

/// An empty row.
pub open spec fn empty_row() -> Seq<bool> {
    Seq::new(10, |x: int| false)
}

/// Height of column `x` counting the first `n` rows of `g`: one more than the highest filled
/// cell, or zero.
pub open spec fn column_height(g: Seq<Seq<bool>>, x: int, n: int) -> int
    decreases n,
{
    if n <= 0 {
        0
    } else if g[n - 1][x] {
        n
    } else {
        column_height(g, x, n - 1)
    }
}

/// A column height is pinned down by its top filled cell and the empty cells above it.
pub proof fn lemma_column_height_char(g: Seq<Seq<bool>>, x: int, n: int, h: int)
    requires
        0 <= h <= n,
        h == 0 || g[h - 1][x],
        forall|y: int| h <= y < n ==> !#[trigger] g[y][x],
    ensures
        column_height(g, x, n) == h,
    decreases n,
{
    if n > h {
        lemma_column_height_char(g, x, n - 1, h);
    }
}

/// A column height lies in `0..=n`; its top cell is filled and the cells above it are empty.
pub proof fn lemma_column_height_props(g: Seq<Seq<bool>>, x: int, n: int)
    requires
        n >= 0,
    ensures
        0 <= column_height(g, x, n) <= n,
        column_height(g, x, n) == 0 || g[column_height(g, x, n) - 1][x],
        forall|y: int| column_height(g, x, n) <= y < n ==> !#[trigger] g[y][x],
    decreases n,
{
    if n > 0 {
        lemma_column_height_props(g, x, n - 1);
    }
}


/// The grid after the cells of `p` have been filled.
pub open spec fn placed_grid(g: Seq<Seq<bool>>, p: FallingPiece) -> Seq<Seq<bool>> {
    Seq::new(g.len(), |y: int| Seq::new(10, |x: int| g[y][x] || p.covers(x, y)))
}

/// The rows among the first `n` of `g` that are not full, bottom first.
pub open spec fn kept_rows(g: Seq<Seq<bool>>, n: int) -> Seq<Seq<bool>>
    decreases n,
{
    if n <= 0 {
        Seq::empty()
    } else if row_full(g[n - 1]) {
        kept_rows(g, n - 1)
    } else {
        kept_rows(g, n - 1).push(g[n - 1])
    }
}

/// The indices of the full rows among the first `n` of `g`, in increasing order.
pub open spec fn full_rows(g: Seq<Seq<bool>>, n: int) -> Seq<int>
    decreases n,
{
    if n <= 0 {
        Seq::empty()
    } else if row_full(g[n - 1]) {
        full_rows(g, n - 1).push(n - 1)
    } else {
        full_rows(g, n - 1)
    }
}

/// The grid after its full rows have been removed and the rows above have fallen.
pub open spec fn clear_lines(g: Seq<Seq<bool>>) -> Seq<Seq<bool>> {
    kept_rows(g, 40) + Seq::new((40 - kept_rows(g, 40).len()) as nat, |i: int| empty_row())
}

/// Every row of `g` is either kept or counted as full.
pub proof fn lemma_kept_full_len(g: Seq<Seq<bool>>, n: int)
    requires
        0 <= n,
    ensures
        kept_rows(g, n).len() + full_rows(g, n).len() == n,
    decreases n,
{
    if n > 0 {
        lemma_kept_full_len(g, n - 1);
    }
}

/// Between rows `m` and `n` there are at most `n - m` full rows.
pub proof fn lemma_full_rows_mono(g: Seq<Seq<bool>>, m: int, n: int)
    requires
        0 <= m <= n,
    ensures
        0 <= full_rows(g, n).len() - full_rows(g, m).len() <= n - m,
    decreases n,
{
    if n > m {
        lemma_full_rows_mono(g, m, n - 1);
    }
}

/// Full rows listed by `full_rows` are full and lie below `n`.
pub proof fn lemma_full_rows_members(g: Seq<Seq<bool>>, n: int)
    requires
        0 <= n,
    ensures
        forall|i: int|
            0 <= i < full_rows(g, n).len() ==> 0 <= #[trigger] full_rows(g, n)[i] < n && row_full(
                g[full_rows(g, n)[i]],
            ),
    decreases n,
{
    if n > 0 {
        lemma_full_rows_members(g, n - 1);
        let prev = full_rows(g, n - 1);
        if row_full(g[n - 1]) {
            assert forall|i: int| 0 <= i < full_rows(g, n).len() implies 0 <= #[trigger] full_rows(
                g,
                n,
            )[i] < n && row_full(g[full_rows(g, n)[i]]) by {
                if i < prev.len() {
                    assert(full_rows(g, n)[i] == prev[i]);
                }
            }
        }
    }
}

/// Cells that survive a line clear in column `x` stay below the old height minus the number of
/// cleared rows.
proof fn lemma_kept_column(g: Seq<Seq<bool>>, x: int, n: int)
    requires
        0 <= n <= 40,
        g.len() == 40,
        0 <= x < 10,
        forall|y: int| 0 <= y < 40 ==> (#[trigger] g[y]).len() == 10,
    ensures
        forall|j: int|
            0 <= j < kept_rows(g, n).len() && #[trigger] kept_rows(g, n)[j][x] ==> j + full_rows(
                g,
                column_height(g, x, 40),
            ).len() < column_height(g, x, 40),
    decreases n,
{
    let h = column_height(g, x, 40);
    lemma_column_height_props(g, x, 40);
    if n > 0 {
        lemma_kept_column(g, x, n - 1);
        let m = n - 1;
        let prev = kept_rows(g, m);
        if !row_full(g[m]) {
            assert forall|j: int|
                0 <= j < kept_rows(g, n).len() && #[trigger] kept_rows(g, n)[j][x] implies j
                + full_rows(g, h).len() < h by {
                if j < prev.len() {
                    assert(kept_rows(g, n)[j] == prev[j]);
                } else {
                    assert(kept_rows(g, n)[j] == g[m]);
                    assert(m < h);
                    lemma_kept_full_len(g, m);
                    lemma_full_rows_mono(g, m + 1, h);
                    assert(full_rows(g, m + 1) == full_rows(g, m));
                }
            }
        }
    }
}

/// Removing full rows lowers column `x` by their number, and no filled cell stays above.
pub proof fn lemma_clear_column(g: Seq<Seq<bool>>, x: int)
    requires
        g.len() == 40,
        0 <= x < 10,
        forall|y: int| 0 <= y < 40 ==> (#[trigger] g[y]).len() == 10,
    ensures
        full_rows(g, 40).len() <= column_height(g, x, 40),
        forall|j: int|
            column_height(g, x, 40) - full_rows(g, 40).len() <= j < 40 ==> !#[trigger] clear_lines(
                g,
            )[j][x],
{
    let h = column_height(g, x, 40);
    lemma_column_height_props(g, x, 40);
    lemma_full_rows_members(g, 40);
    lemma_full_rows_mono(g, 0, h);
    lemma_full_rows_mono(g, h, 40);
    lemma_no_full_rows_above(g, x, h, 40);
    lemma_kept_column(g, x, 40);
    lemma_kept_full_len(g, 40);
}

/// Above the top of a column no row is full.
proof fn lemma_no_full_rows_above(g: Seq<Seq<bool>>, x: int, h: int, n: int)
    requires
        0 <= h <= n,
        0 <= x < 10,
        forall|y: int| h <= y < n ==> !#[trigger] g[y][x],
    ensures
        full_rows(g, n) == full_rows(g, h),
    decreases n,
{
    if n > h {
        lemma_no_full_rows_above(g, x, h, n - 1);
        assert(!g[n - 1][x]);
    }
}

/// A column height depends on that column alone.
pub proof fn lemma_column_height_frame(g1: Seq<Seq<bool>>, g2: Seq<Seq<bool>>, x: int, n: int)
    requires
        forall|y: int| 0 <= y < n ==> #[trigger] g1[y][x] == g2[y][x],
    ensures
        column_height(g1, x, n) == column_height(g2, x, n),
    decreases n,
{
    if n > 0 {
        lemma_column_height_frame(g1, g2, x, n - 1);
    }
}

/// Filling cell `(x0, y0)` raises column `x0` to at least `y0 + 1` and leaves other columns alone.
pub proof fn lemma_fill_cell_heights(g1: Seq<Seq<bool>>, g2: Seq<Seq<bool>>, x0: int, y0: int)
    requires
        g1.len() == 40,
        g2.len() == 40,
        0 <= x0 < 10,
        0 <= y0 < 40,
        g2[y0][x0],
        forall|y: int, x: int|
            0 <= y < 40 && 0 <= x < 10 && (y != y0 || x != x0) ==> #[trigger] g2[y][x] == g1[y][x],
    ensures
        column_height(g2, x0, 40) == if column_height(g1, x0, 40) < y0 + 1 {
            y0 + 1
        } else {
            column_height(g1, x0, 40)
        },
        forall|x: int|
            0 <= x < 10 && x != x0 ==> #[trigger] column_height(g2, x, 40) == column_height(
                g1,
                x,
                40,
            ),
{
    let h1 = column_height(g1, x0, 40);
    lemma_column_height_props(g1, x0, 40);
    let h2 = if h1 < y0 + 1 {
        y0 + 1
    } else {
        h1
    };
    assert forall|y: int| h2 <= y < 40 implies !#[trigger] g2[y][x0] by {
        assert(g2[y][x0] == g1[y][x0]);
    }
    if h1 >= y0 + 1 && h1 > 0 {
        assert(g2[h1 - 1][x0] == g1[h1 - 1][x0] || h1 - 1 == y0);
    }
    lemma_column_height_char(g2, x0, 40, h2);
    assert forall|x: int| 0 <= x < 10 && x != x0 implies #[trigger] column_height(g2, x, 40)
        == column_height(g1, x, 40) by {
        assert forall|y: int| 0 <= y < 40 implies #[trigger] g2[y][x] == g1[y][x] by {}
        lemma_column_height_frame(g2, g1, x, 40);
    }
}

/// The first `n` cells of `p` include `(x, y)`.
pub open spec fn covers_upto(p: FallingPiece, n: int, x: int, y: int) -> bool {
    exists|k: int| 0 <= k < n && #[trigger] p.cell(k) == (x, y)
}

/// A garbage row with a hole in column `col` (no hole when `col` is outside the playfield).
pub open spec fn garbage_row(col: int) -> Seq<bool> {
    Seq::new(10, |x: int| x != col)
}

/// Shifting a column up by one row over a new bottom cell raises its height by one, unless the
/// column stays empty.
pub proof fn lemma_shift_up_height(g1: Seq<Seq<bool>>, g2: Seq<Seq<bool>>, x: int, bottom: bool)
    requires
        g1.len() == 40,
        g2.len() == 40,
        g2[0][x] == bottom,
        forall|y: int| 0 <= y < 39 ==> #[trigger] g2[y + 1][x] == g1[y][x],
        !g1[39][x],
    ensures
        column_height(g2, x, 40) == if column_height(g1, x, 40) == 0 && !bottom {
            0
        } else {
            column_height(g1, x, 40) + 1
        },
{
    let h = column_height(g1, x, 40);
    lemma_column_height_props(g1, x, 40);
    let h2 = if h == 0 && !bottom {
        0
    } else {
        h + 1
    };
    assert(h < 40);
    assert forall|y: int| h2 <= y < 40 implies !#[trigger] g2[y][x] by {
        if y >= 1 {
            assert(g2[(y - 1) + 1][x] == g1[y - 1][x]);
        }
    }
    if h > 0 {
        assert(g2[(h - 1) + 1][x] == g1[h - 1][x]);
    }
    lemma_column_height_char(g2, x, 40, h2);
}

/// One step of working out which pieces can still come: a full bag starts over before `p` is
/// added.
pub open spec fn bag_step(b: PieceSet, p: Piece) -> PieceSet {
    (if b == PieceSet::full_set() {
        PieceSet::empty_set()
    } else {
        b
    }).with(p)
}

/// The bag as it stood before the pieces of `q` were drawn from it, working back from `b`.
pub open spec fn bag_back(b: PieceSet, q: Seq<Piece>) -> PieceSet
    decreases q.len(),
{
    if q.len() == 0 {
        b
    } else {
        bag_back(bag_step(b, q.last()), q.drop_last())
    }
}

/// A bag that was emptied is refilled with all seven pieces.
pub open spec fn refilled(b: PieceSet) -> PieceSet {
    if b == PieceSet::empty_set() {
        PieceSet::full_set()
    } else {
        b
    }
}

/// The bag after the pieces of `q` are drawn from `b` in turn, refilled whenever it empties.
pub open spec fn bag_draws(b: PieceSet, q: Seq<Piece>) -> PieceSet
    decreases q.len(),
{
    if q.len() == 0 {
        b
    } else {
        refilled(bag_draws(b, q.drop_last()).without(q.last()))
    }
}

/// Each piece of `q` is in the bag when it is drawn.
pub open spec fn drawn_from(b: PieceSet, q: Seq<Piece>) -> bool {
    forall|i: int| 0 <= i < q.len() ==> #[trigger] bag_draws(b, q.take(i)).has(q[i])
}

/// `bs` are the boards that a board goes through as the pieces of `q` are added to its queue
/// one by one, as `add_next_piece` adds them, each one drawn from the bag it is added to.
pub open spec fn added_in_turn(bs: Seq<Board>, q: Seq<Piece>) -> bool {
    &&& bs.len() == q.len() + 1
    &&& forall|i: int|
        #![trigger bs[i], q[i]]
        0 <= i < q.len() ==> {
            &&& bs[i].bag_of().has(q[i])
            &&& bs[i + 1].queue() == bs[i].queue().push(q[i])
            &&& bs[i + 1].bag_of() == refilled(bs[i].bag_of().without(q[i]))
        }
}

/// Working back over a drawn piece gives the bag it was drawn from.
proof fn lemma_bag_step_undoes(x: PieceSet, p: Piece)
    requires
        x.has(p),
    ensures
        bag_step(refilled(x.without(p)), p) == x,
{
    PieceSet::lemma_full_iff(x.without(p));
    PieceSet::lemma_full_iff(PieceSet::full_set());
    if x.without(p) == PieceSet::empty_set() {
        assert forall|r: Piece| PieceSet::empty_set().with(p).has(r) == x.has(r) by {
            PieceSet::lemma_has(x, p, r);
            PieceSet::lemma_has(PieceSet::empty_set(), p, r);
            PieceSet::lemma_has_const(r);
        }
        PieceSet::lemma_ext(PieceSet::empty_set().with(p), x);
    } else {
        PieceSet::lemma_has(x, p, p);
        PieceSet::lemma_has_const(p);
        assert(x.without(p) != PieceSet::full_set());
        assert forall|r: Piece| x.without(p).with(p).has(r) == x.has(r) by {
            PieceSet::lemma_has(x, p, r);
            PieceSet::lemma_has(x.without(p), p, r);
        }
        PieceSet::lemma_ext(x.without(p).with(p), x);
    }
}

/// The boards along `bs` hold the queue and bag that drawing the pieces of `q` leaves.
proof fn lemma_added_in_turn(bs: Seq<Board>, q: Seq<Piece>, k: int)
    requires
        added_in_turn(bs, q),
        0 <= k <= q.len(),
    ensures
        bs[k].queue() == bs[0].queue() + q.take(k),
        bs[k].bag_of() == bag_draws(bs[0].bag_of(), q.take(k)),
        forall|i: int| 0 <= i < k ==> #[trigger] bag_draws(bs[0].bag_of(), q.take(i)).has(q[i]),
    decreases k,
{
    if k == 0 {
        assert(q.take(0) =~= Seq::<Piece>::empty());
        assert(bs[0].queue() + q.take(0) =~= bs[0].queue());
    } else {
        lemma_added_in_turn(bs, q, k - 1);
        assert(q.take(k).drop_last() =~= q.take(k - 1));
        assert(q.take(k).last() == q[k - 1]);
        assert(bs[k - 1].bag_of().has(q[k - 1]));
        assert(bs[0].queue() + q.take(k) =~= (bs[0].queue() + q.take(k - 1)).push(q[k - 1]));
    }
}

/// Working back over the pieces drawn gives the bag they were drawn from.
proof fn lemma_bag_back_draws(b: PieceSet, q: Seq<Piece>)
    requires
        drawn_from(b, q),
    ensures
        bag_back(bag_draws(b, q), q) == b,
    decreases q.len(),
{
    if q.len() > 0 {
        let q0 = q.drop_last();
        assert forall|i: int| 0 <= i < q0.len() implies #[trigger] bag_draws(b, q0.take(i)).has(q0[i]) by {
            assert(q0.take(i) =~= q.take(i));
            assert(bag_draws(b, q.take(i)).has(q[i]));
        }
        lemma_bag_back_draws(b, q0);
        assert(q.take(q.len() - 1) =~= q0);
        assert(bag_draws(b, q.take(q.len() - 1)).has(q[q.len() - 1]));
        lemma_bag_step_undoes(bag_draws(b, q0), q.last());
    }
}

/// The pieces added to an empty queue, each drawn from the bag it was added to, can be worked
/// back to the bag they came from: the bag that `next_bag` gives is the bag before them.
pub proof fn lemma_next_bag_undoes(bs: Seq<Board>, q: Seq<Piece>)
    requires
        added_in_turn(bs, q),
        bs[0].queue().len() == 0,
    ensures
        bag_back(bs.last().bag_of(), bs.last().queue()) == bs[0].bag_of(),
{
    lemma_added_in_turn(bs, q, q.len() as int);
    assert(q.take(q.len() as int) =~= q);
    assert(bs[0].queue() + q =~= q);
    lemma_bag_back_draws(bs[0].bag_of(), q);
}

/// What a run of draws from a full bag keeps: the pieces of each run of seven are distinct, the
/// bag holds what the current run has not drawn yet, and its size says how far the run is.
proof fn lemma_seven_bag_draws(q: Seq<Piece>)
    requires
        drawn_from(PieceSet::full_set(), q),
    ensures
        forall|i: int, j: int| 0 <= i < j < q.len() && i / 7 == j / 7 ==> q[i] != q[j],
        forall|r: Piece| #[trigger] bag_draws(PieceSet::full_set(), q).has(r) == !(exists|j: int|
            (q.len() / 7) * 7 <= j < q.len() && q[j] == r),
        bag_draws(PieceSet::full_set(), q).size() == 7 - q.len() % 7,
    decreases q.len(),
{
    let full = PieceSet::full_set();
    let n = q.len() as int;
    if n == 0 {
        full.lemma_size(Piece::I);
        assert forall|r: Piece| #[trigger] bag_draws(full, q).has(r) == !(exists|j: int|
            (n / 7) * 7 <= j < n && q[j] == r) by {
            PieceSet::lemma_has_const(r);
        }
    } else {
        let q0 = q.drop_last();
        let p = q.last();
        assert forall|i: int| 0 <= i < q0.len() implies #[trigger] bag_draws(full, q0.take(i)).has(q0[i]) by {
            assert(q0.take(i) =~= q.take(i));
            assert(bag_draws(full, q.take(i)).has(q[i]));
        }
        lemma_seven_bag_draws(q0);
        let x = bag_draws(full, q0);
        assert(q.take(n - 1) =~= q0);
        assert(bag_draws(full, q.take(n - 1)).has(q[n - 1]));
        assert(x.has(p));
        x.lemma_size(p);
        x.without(p).lemma_size(p);
        full.lemma_size(p);
        assert forall|i: int, j: int| 0 <= i < j < n && i / 7 == j / 7 implies q[i] != q[j] by {
            if j == n - 1 {
                assert((q0.len() / 7) * 7 <= i < q0.len()) by (nonlinear_arith)
                    requires
                        i / 7 == j / 7,
                        0 <= i < j,
                        j == q0.len(),
                ;
                assert(q0[i] == q[i]);
                if q[i] == q[j] {
                    assert(!x.has(q0[i]));
                }
            } else {
                assert(q0[i] == q[i] && q0[j] == q[j]);
            }
        }
        if (n - 1) % 7 == 6 {
            assert(x.size() == 1);
            assert(x.without(p).size() == 0);
            assert(bag_draws(full, q) == full);
            assert(n % 7 == 0);
            assert((n / 7) * 7 == n);
            assert forall|r: Piece| #[trigger] bag_draws(full, q).has(r) == !(exists|j: int|
                (n / 7) * 7 <= j < n && q[j] == r) by {
                PieceSet::lemma_has_const(r);
            }
        } else {
            assert(x.without(p).size() != 0);
            assert(bag_draws(full, q) == x.without(p));
            assert(n / 7 == (n - 1) / 7);
            assert(n % 7 == (n - 1) % 7 + 1);
            assert forall|r: Piece| #[trigger] bag_draws(full, q).has(r) == !(exists|j: int|
                (n / 7) * 7 <= j < n && q[j] == r) by {
                PieceSet::lemma_has(x, p, r);
                if exists|j: int| (n / 7) * 7 <= j < n && q[j] == r {
                    let j = choose|j: int| (n / 7) * 7 <= j < n && q[j] == r;
                    if j < n - 1 {
                        assert(q0[j] == r);
                        assert(!x.has(r));
                    }
                } else {
                    assert(r != p) by {
                        if r == p {
                            assert((n / 7) * 7 <= n - 1 && q[n - 1] == r);
                        }
                    }
                    if !x.has(r) {
                        let j = choose|j: int| ((n - 1) / 7) * 7 <= j < n - 1 && q0[j] == r;
                        assert(q[j] == r);
                    }
                }
            }
        }
    }
}

/// The seven-bag law: pieces added one by one to the queue of a board whose bag is full, each
/// drawn from the bag it was added to, come in runs of seven distinct pieces, and the bag then
/// holds the pieces that the last, unfinished run has not drawn yet (all seven after a finished
/// run).
pub proof fn lemma_seven_bag(bs: Seq<Board>, q: Seq<Piece>)
    requires
        added_in_turn(bs, q),
        bs[0].bag_of() == PieceSet::full_set(),
    ensures
        forall|i: int, j: int| 0 <= i < j < q.len() && i / 7 == j / 7 ==> q[i] != q[j],
        forall|r: Piece| #[trigger] bs.last().bag_of().has(r) == !(exists|j: int|
            (q.len() / 7) * 7 <= j < q.len() && q[j] == r),
{
    lemma_added_in_turn(bs, q, q.len() as int);
    assert(q.take(q.len() as int) =~= q);
    lemma_seven_bag_draws(q);
}

/// The field round trip: a field read from a board set to `field` is `field`, cell by cell;
/// and a board set to the field read from another board has that board's cells.
pub proof fn lemma_field_round_trip(
    b0: Board,
    read: [[bool; 10]; 40],
    b1: Board,
    field: [[bool; 10]; 40],
)
    requires
        b0.inv(),
        b1.inv(),
        forall|x: int, y: int| 0 <= x < 10 && 0 <= y < 40 ==> #[trigger] read@[y]@[x] == b0.grid()[y][x],
        forall|x: int, y: int| 0 <= x < 10 && 0 <= y < 40 ==> #[trigger] b1.grid()[y][x] == field@[y]@[x],
    ensures
        read == field ==> b1.grid() == b0.grid(),
        b0 == b1 ==> forall|x: int, y: int| 0 <= x < 10 && 0 <= y < 40 ==> #[trigger] read@[y]@[x] == field@[y]@[x],
{
    b0.lemma_inv();
    b1.lemma_inv();
    if read == field {
        assert forall|y: int| 0 <= y < 40 implies #[trigger] b1.grid()[y] =~= b0.grid()[y] by {
            assert forall|x: int| 0 <= x < 10 implies b1.grid()[y][x] == b0.grid()[y][x] by {
                assert(read@[y]@[x] == b0.grid()[y][x]);
                assert(b1.grid()[y][x] == field@[y]@[x]);
            }
        }
        assert(b1.grid() =~= b0.grid());
    }
}

/// What locking a piece does to the garbage, back-to-back and combo counters: the garbage sent,
/// whether back-to-back applied, the new back-to-back flag and the new combo counter.
pub open spec fn lock_outcome(kind: PlacementKind, b2b: bool, combo: u32, perfect: bool) -> (
    u32,
    bool,
    bool,
    int,
) {
    let clear = kind.is_clear_spec();
    let did_b2b = clear && kind.is_hard_spec() && b2b;
    let new_b2b = if clear {
        kind.is_hard_spec()
    } else {
        b2b
    };
    let base = if clear {
        kind.garbage_spec() + (if did_b2b {
            1int
        } else {
            0
        }) + combo_garbage_spec(if combo < 11 {
            combo as int
        } else {
            11
        })
    } else {
        kind.garbage_spec() as int
    };
    let garbage = if perfect {
        10
    } else {
        base
    };
    let new_combo = if clear {
        combo + 1
    } else {
        0
    };
    (garbage as u32, did_b2b, new_b2b, new_combo)
}

/// A perfect clear sends ten lines of garbage, whatever else the placement was.
pub proof fn lemma_perfect_clear_garbage(kind: PlacementKind, b2b: bool, combo: u32)
    ensures
        lock_outcome(kind, b2b, combo, true).0 == 10,
{
}

/// Only a hard line clear can keep back-to-back going: a plain clear ends it, and a placement
/// that clears nothing leaves it as it was.
pub proof fn lemma_back_to_back_rules(kind: PlacementKind, b2b: bool, combo: u32, perfect: bool)
    ensures
        kind.is_clear_spec() && !kind.is_hard_spec() ==> !lock_outcome(kind, b2b, combo, perfect).2,
        kind.is_clear_spec() && kind.is_hard_spec() ==> lock_outcome(kind, b2b, combo, perfect).2,
        !kind.is_clear_spec() ==> lock_outcome(kind, b2b, combo, perfect).2 == b2b,
        lock_outcome(kind, b2b, combo, perfect).1 ==> b2b,
{
}

/// Drawing a piece never leaves the bag empty: an emptied bag is refilled with all seven.
pub proof fn lemma_bag_never_empty(bag: PieceSet, piece: Piece)
    ensures
        (if bag.without(piece) == PieceSet::empty_set() {
            PieceSet::full_set()
        } else {
            bag.without(piece)
        }) != PieceSet::empty_set(),
{
    PieceSet::lemma_full_iff(PieceSet::full_set());
    assert(PieceSet::full_set().has(Piece::I));
}

/// The combo counter grows by one with every line clear and falls back to zero otherwise.
pub proof fn lemma_combo_rules(kind: PlacementKind, b2b: bool, combo: u32, perfect: bool)
    ensures
        kind.is_clear_spec() ==> lock_outcome(kind, b2b, combo, perfect).3 == combo + 1,
        !kind.is_clear_spec() ==> lock_outcome(kind, b2b, combo, perfect).3 == 0,
{
}

impl<R: Row> Board<R> {
    /// The rows, bottom first.
    pub closed spec fn rows(&self) -> Seq<R> {
        self.cells@
    }

    /// The occupancy grid: `grid()[y][x]` is cell `(x, y)`.
    pub open spec fn grid(&self) -> Seq<Seq<bool>> {
        grid_of(self.rows())
    }

    /// Cell `(x, y)` is filled or lies outside the playfield.
    pub open spec fn occ(&self, x: int, y: int) -> bool {
        occ_grid(self.grid(), x, y)
    }

    /// The stored height of column `x`.
    pub closed spec fn height(&self, x: int) -> int {
        self.column_heights@[x] as int
    }

    /// The combo counter.
    pub closed spec fn combo_of(&self) -> u32 {
        self.combo
    }

    /// The back-to-back flag.
    pub closed spec fn b2b_of(&self) -> bool {
        self.b2b_bonus
    }

    /// The held piece.
    pub closed spec fn hold_of(&self) -> Option<Piece> {
        self.hold_piece
    }

    /// The pieces left in the bag.
    pub closed spec fn bag_of(&self) -> PieceSet {
        self.bag
    }

    /// The stored column heights.
    pub closed spec fn heights_seq(&self) -> Seq<i32> {
        self.column_heights@
    }

    /// The known upcoming pieces, front first.
    pub closed spec fn queue(&self) -> Seq<Piece> {
        self.next_pieces@
    }

    /// Forty well-formed rows.
    pub closed spec fn inv(&self) -> bool {
        &&& self.cells@.len() == 40
        &&& forall|y: int| 0 <= y < 40 ==> #[trigger] self.cells@[y].wf()
    }

    /// The board invariant: forty well-formed rows and exact column heights.
    pub open spec fn wf(&self) -> bool {
        &&& self.inv()
        &&& forall|x: int| 0 <= x < 10 ==> #[trigger] self.height(x) == column_height(
            self.grid(),
            x,
            40,
        )
    }

    /// Facts that follow from `inv`.
    pub proof fn lemma_inv(&self)
        requires
            self.inv(),
        ensures
            self.grid().len() == 40,
            forall|y: int| 0 <= y < 40 ==> (#[trigger] self.grid()[y]).len() == 10,
            self.rows().len() == 40,
            forall|y: int| 0 <= y < 40 ==> (#[trigger] self.rows()[y]).wf(),
    {
    }

    /// A board with the rows and column heights of a well-formed board is well formed.
    pub proof fn lemma_same_state_wf(&self, other: Self)
        requires
            self.wf(),
            other.rows() == self.rows(),
            other.heights_seq() == self.heights_seq(),
        ensures
            other.wf(),
            other.grid() == self.grid(),
    {
        assert(other.grid() =~= self.grid());
        assert(other.cells@ == self.cells@);
        assert forall|x: int| 0 <= x < 10 implies #[trigger] other.height(x) == column_height(other.grid(), x, 40) by {
            assert(other.column_heights@[x] == self.column_heights@[x]);
            assert(self.height(x) == column_height(self.grid(), x, 40));
        }
    }

    /// Stored heights of a well-formed board lie in `0..=40`.
    pub proof fn lemma_heights(&self)
        requires
            self.wf(),
        ensures
            forall|x: int| 0 <= x < 10 ==> 0 <= #[trigger] self.height(x) <= 40,
    {
        assert forall|x: int| 0 <= x < 10 implies 0 <= #[trigger] self.height(x) <= 40 by {
            lemma_column_height_props(self.grid(), x, 40);
        }
    }

    /// Creates a blank board with an empty queue.
    pub fn new() -> (b: Self)
        ensures
            b.wf(),
            forall|x: int, y: int| 0 <= x < 10 && 0 <= y < 40 ==> !#[trigger] b.grid()[y][x],
            b.queue() == Seq::<Piece>::empty(),
            b.bag_of() == PieceSet::full_set(),
            b.hold_of() == None::<Piece>,
            b.combo_of() == 0,
            !b.b2b_of(),
    {
        let mut cells: Vec<R> = Vec::new();
        let mut i: usize = 0;
        while i < 40
            invariant
                i <= 40,
                cells@.len() == i,
                forall|y: int| 0 <= y < i ==> #[trigger] cells@[y].wf(),
                forall|y: int, x: int| 0 <= y < i ==> !#[trigger] cells@[y].filled(x),
            decreases 40 - i,
        {
            cells.push(R::empty());
            i = i + 1;
        }
        let b = Board {
            cells,
            column_heights: [0; 10],
            combo: 0,
            b2b_bonus: false,
            hold_piece: None,
            next_pieces: VecDeque::new(),
            bag: PieceSet::all(),
        };
        proof {
            assert forall|x: int| 0 <= x < 10 implies #[trigger] b.height(x) == column_height(
                b.grid(),
                x,
                40,
            ) by {
                lemma_column_height_char(b.grid(), x, 40, 0);
            }
        }
        b
    }

    /// Retrieves the next piece in the queue; if the queue is empty, returns the set of
    /// possible next pieces.
    pub fn get_next_piece(&self) -> (r: Result<Piece, PieceSet>)
        ensures
            self.queue().len() > 0 ==> r == Ok::<Piece, PieceSet>(self.queue()[0]),
            self.queue().len() == 0 ==> r == Err::<Piece, PieceSet>(self.bag_of()),
    {
        if self.next_pieces.len() > 0 {
            Ok(self.next_pieces[0])
        } else {
            Err(self.bag)
        }
    }

    /// Retrieves the piece after the next piece in the queue if it is known.
    pub fn get_next_next_piece(&self) -> (r: Option<Piece>)
        ensures
            self.queue().len() > 1 ==> r == Some(self.queue()[1]),
            self.queue().len() <= 1 ==> r == None::<Piece>,
    {
        if self.next_pieces.len() > 1 {
            Some(self.next_pieces[1])
        } else {
            None
        }
    }

    /// Adds the piece to the next queue and removes it from the bag; an emptied bag is refilled.
    pub fn add_next_piece(&mut self, piece: Piece)
        ensures
            final(self).queue() == old(self).queue().push(piece),
            final(self).bag_of() == (if old(self).bag_of().without(piece) == PieceSet::empty_set() {
                PieceSet::full_set()
            } else {
                old(self).bag_of().without(piece)
            }),
            final(self).rows() == old(self).rows(),
            final(self).heights_seq() == old(self).heights_seq(),
            final(self).combo_of() == old(self).combo_of(),
            final(self).b2b_of() == old(self).b2b_of(),
            final(self).hold_of() == old(self).hold_of(),
    {
        self.bag.remove(piece);
        if self.bag.is_empty() {
            self.bag = PieceSet::all();
        }
        self.next_pieces.push_back(piece);
    }

    /// Whether cell `(x, y)` is filled; everything outside the playfield counts as filled.
    pub fn occupied(&self, x: i32, y: i32) -> (b: bool)
        requires
            self.inv(),
        ensures
            b == self.occ(x as int, y as int),
    {
        x < 0 || y < 0 || x >= 10 || y >= 40 || self.cells[y as usize].get(x as usize)
    }

    /// Row `y`; below the floor rows are solid and above the top they are empty.
    pub fn get_row(&self, y: i32) -> (r: R)
        requires
            self.inv(),
        ensures
            r.wf(),
            y < 0 ==> forall|x: int| 0 <= x < 10 ==> #[trigger] r.filled(x),
            y >= 40 ==> forall|x: int| !#[trigger] r.filled(x),
            0 <= y < 40 ==> r == self.rows()[y as int],
    {
        if y < 0 {
            R::solid()
        } else if y >= 40 {
            R::empty()
        } else {
            self.cells[y as usize]
        }
    }

    /// Some cell of the piece is filled or outside the playfield.
    pub fn obstructed(&self, piece: &FallingPiece) -> (b: bool)
        requires
            self.inv(),
            piece.in_range(),
        ensures
            b == (exists|i: int| 0 <= i < 4 && self.occ(piece.cell(i).0, piece.cell(i).1)),
    {
        let cells = piece.cells();
        let mut i: usize = 0;
        while i < 4
            invariant
                i <= 4,
                self.inv(),
                forall|k: int|
                    0 <= k < 4 ==> (cells@[k].0 as int, cells@[k].1 as int) == #[trigger] piece.cell(
                        k,
                    ),
                forall|k: int| 0 <= k < i ==> !self.occ(piece.cell(k).0, piece.cell(k).1),
            decreases 4 - i,
        {
            let (x, y) = cells[i];
            assert(piece.cell(i as int) == (x as int, y as int));
            if self.occupied(x, y) {
                return true;
            }
            i = i + 1;
        }
        false
    }

    /// Every cell of the piece is at or above the top of its column.
    pub fn above_stack(&self, piece: &FallingPiece) -> (b: bool)
        requires
            self.inv(),
            piece.in_range(),
            forall|i: int| 0 <= i < 4 ==> 0 <= #[trigger] piece.cell(i).0 < 10,
        ensures
            b == (forall|i: int|
                0 <= i < 4 ==> #[trigger] piece.cell(i).1 >= self.height(piece.cell(i).0)),
    {
        let cells = piece.cells();
        let mut i: usize = 0;
        while i < 4
            invariant
                i <= 4,
                forall|k: int| 0 <= k < 4 ==> 0 <= #[trigger] piece.cell(k).0 < 10,
                forall|k: int|
                    0 <= k < 4 ==> (cells@[k].0 as int, cells@[k].1 as int) == #[trigger] piece.cell(
                        k,
                    ),
                forall|k: int|
                    0 <= k < i ==> #[trigger] piece.cell(k).1 >= self.height(piece.cell(k).0),
            decreases 4 - i,
        {
            let (x, y) = cells[i];
            assert(piece.cell(i as int) == (x as int, y as int));
            if y < self.column_heights[x as usize] {
                return false;
            }
            i = i + 1;
        }
        true
    }

    /// Some cell directly below a cell of the piece is filled or outside the playfield.
    pub fn on_stack(&self, piece: &FallingPiece) -> (b: bool)
        requires
            self.inv(),
            piece.in_range(),
        ensures
            b == (exists|i: int| 0 <= i < 4 && self.occ(piece.cell(i).0, piece.cell(i).1 - 1)),
    {
        let cells = piece.cells();
        let mut i: usize = 0;
        while i < 4
            invariant
                i <= 4,
                self.inv(),
                piece.in_range(),
                forall|k: int|
                    0 <= k < 4 ==> (cells@[k].0 as int, cells@[k].1 as int) == #[trigger] piece.cell(
                        k,
                    ),
                forall|k: int| 0 <= k < i ==> !self.occ(piece.cell(k).0, piece.cell(k).1 - 1),
            decreases 4 - i,
        {
            let (x, y) = cells[i];
            assert(piece.cell(i as int) == (x as int, y as int));
            proof {
                lemma_offset_small(piece.kind, i as int);
            }
            if self.occupied(x, y - 1) {
                return true;
            }
            i = i + 1;
        }
        false
    }

    /// Puts `piece` into hold and returns the previously held piece.
    pub fn hold(&mut self, piece: Piece) -> (prev: Option<Piece>)
        ensures
            prev == old(self).hold_of(),
            final(self).hold_of() == Some(piece),
            final(self).rows() == old(self).rows(),
            final(self).heights_seq() == old(self).heights_seq(),
            final(self).queue() == old(self).queue(),
            final(self).bag_of() == old(self).bag_of(),
            final(self).combo_of() == old(self).combo_of(),
            final(self).b2b_of() == old(self).b2b_of(),
    {
        let hold = self.hold_piece;
        self.hold_piece = Some(piece);
        hold
    }

    /// The known upcoming pieces, front first.
    pub fn next_queue(&self) -> (q: Vec<Piece>)
        ensures
            q@ == self.queue(),
    {
        let mut q: Vec<Piece> = Vec::new();
        let n = self.next_pieces.len();
        let mut i: usize = 0;
        while i < n
            invariant
                i <= n,
                n == self.queue().len(),
                q@ == self.queue().take(i as int),
            decreases n - i,
        {
            q.push(self.next_pieces[i]);
            proof {
                assert(self.queue().take(i + 1) =~= self.queue().take(i as int).push(
                    self.queue()[i as int],
                ));
            }
            i = i + 1;
        }
        assert(self.queue().take(n as int) =~= self.queue());
        q
    }

    /// Takes the piece that should spawn next, or `None` if the queue is empty.
    pub fn advance_queue(&mut self) -> (p: Option<Piece>)
        ensures
            old(self).queue().len() > 0 ==> p == Some(old(self).queue()[0]),
            old(self).queue().len() > 0 ==> final(self).queue() == old(self).queue().drop_first(),
            old(self).queue().len() == 0 ==> p == None::<Piece>,
            old(self).queue().len() == 0 ==> final(self).queue() == old(self).queue(),
            final(self).rows() == old(self).rows(),
            final(self).heights_seq() == old(self).heights_seq(),
            final(self).hold_of() == old(self).hold_of(),
            final(self).bag_of() == old(self).bag_of(),
            final(self).combo_of() == old(self).combo_of(),
            final(self).b2b_of() == old(self).b2b_of(),
    {
        self.next_pieces.pop_front()
    }

    /// The height of each column.
    pub fn column_heights(&self) -> (h: &[i32; 10])
        ensures
            forall|x: int| 0 <= x < 10 ==> #[trigger] h@[x] as int == self.height(x),
    {
        &self.column_heights
    }

    /// Removes the full rows, lets the rows above fall, and returns the indices of the removed
    /// rows in increasing order.
    fn remove_cleared_lines(&mut self) -> (cleared: Vec<i32>)
        requires
            old(self).wf(),
        ensures
            final(self).wf(),
            final(self).grid() == clear_lines(old(self).grid()),
            cleared@.len() == full_rows(old(self).grid(), 40).len(),
            forall|i: int|
                0 <= i < cleared@.len() ==> #[trigger] cleared@[i] as int == full_rows(
                    old(self).grid(),
                    40,
                )[i],
            final(self).queue() == old(self).queue(),
            final(self).hold_piece == old(self).hold_piece,
            final(self).bag == old(self).bag,
            final(self).combo == old(self).combo,
            final(self).b2b_bonus == old(self).b2b_bonus,
    {
        let ghost g = self.grid();
        let mut cleared: Vec<i32> = Vec::new();
        let mut kept: Vec<R> = Vec::new();
        let mut y: usize = 0;
        while y < 40
            invariant
                y <= 40,
                self.inv(),
                g == self.grid(),
                g == old(self).grid(),
                self.column_heights == old(self).column_heights,
                self.next_pieces == old(self).next_pieces,
                self.hold_piece == old(self).hold_piece,
                self.bag == old(self).bag,
                self.combo == old(self).combo,
                self.b2b_bonus == old(self).b2b_bonus,
                grid_of(kept@) == kept_rows(g, y as int),
                forall|j: int| 0 <= j < kept@.len() ==> #[trigger] kept@[j].wf(),
                cleared@.len() == full_rows(g, y as int).len(),
                forall|i: int|
                    0 <= i < cleared@.len() ==> #[trigger] cleared@[i] as int == full_rows(
                        g,
                        y as int,
                    )[i],
            decreases 40 - y,
        {
            let r = self.cells[y];
            proof {
                assert(row_view(r) == g[y as int]);
                assert forall|c: int| 0 <= c < 10 implies g[y as int][c] == r.filled(c) by {}
                assert(row_full(g[y as int]) == (forall|c: int| 0 <= c < 10 ==> #[trigger] r.filled(c)));
            }
            if r.is_full() {
                cleared.push(y as i32);
                proof {
                    assert(full_rows(g, y + 1) == full_rows(g, y as int).push(y as int));
                }
            } else {
                kept.push(r);
                proof {
                    assert(grid_of(kept@) =~= kept_rows(g, y as int).push(g[y as int]));
                }
            }
            y = y + 1;
        }
        proof {
            lemma_kept_full_len(g, 40);
            old(self).lemma_inv();
        }
        let n = cleared.len();
        let mut i: usize = 0;
        while i < n
            invariant
                i <= n,
                n + kept_rows(g, 40).len() == 40,
                self.inv(),
                g == old(self).grid(),
                self.cells == old(self).cells,
                self.column_heights == old(self).column_heights,
                self.next_pieces == old(self).next_pieces,
                self.hold_piece == old(self).hold_piece,
                self.bag == old(self).bag,
                self.combo == old(self).combo,
                self.b2b_bonus == old(self).b2b_bonus,

                grid_of(kept@) == kept_rows(g, 40) + Seq::new(i as nat, |k: int| empty_row()),
                forall|j: int| 0 <= j < kept@.len() ==> #[trigger] kept@[j].wf(),
            decreases n - i,
        {
            let e = R::empty();
            let ghost before = grid_of(kept@);
            kept.push(e);
            proof {
                assert(grid_of(kept@) =~= before.push(row_view(e)));
                assert(row_view(e) =~= empty_row());
                assert(before.push(empty_row()) =~= kept_rows(g, 40) + Seq::new(
                    (i + 1) as nat,
                    |k: int| empty_row(),
                ));
            }
            i = i + 1;
        }
        self.cells = kept;
        proof {
            assert(self.grid() =~= clear_lines(g));
        }
        let ghost cg = self.grid();
        proof {
            assert forall|c: int| 0 <= c < 10 implies #[trigger] self.height(c) == column_height(
                g,
                c,
                40,
            ) by {
                assert(old(self).height(c) == column_height(old(self).grid(), c, 40));
            }
        }
        let mut x: usize = 0;
        while x < 10
            invariant
                x <= 10,
                n <= 40,
                self.inv(),
                self.grid() == cg,
                self.next_pieces == old(self).next_pieces,
                self.hold_piece == old(self).hold_piece,
                self.bag == old(self).bag,
                self.combo == old(self).combo,
                self.b2b_bonus == old(self).b2b_bonus,

                cg == clear_lines(g),
                n == full_rows(g, 40).len(),
                g.len() == 40,
                forall|yy: int| 0 <= yy < 40 ==> (#[trigger] g[yy]).len() == 10,
                forall|c: int| 0 <= c < x ==> #[trigger] self.height(c) == column_height(cg, c, 40),
                forall|c: int| x <= c < 10 ==> #[trigger] self.height(c) == column_height(g, c, 40),
            decreases 10 - x,
        {
            let ghost start = *self;
            proof {
                lemma_clear_column(g, x as int);
                lemma_column_height_props(g, x as int, 40);
                assert(self.height(x as int) == column_height(g, x as int, 40));
                assert(self.column_heights@[x as int] == self.height(x as int));
            }
            let mut h: i32 = self.column_heights[x] - n as i32;
            let ghost before = self.column_heights@;
            while h > 0 && !self.cells[(h - 1) as usize].get(x)
                invariant
                    self.column_heights@ == before,
                    self.next_pieces == old(self).next_pieces,
                    self.hold_piece == old(self).hold_piece,
                    self.bag == old(self).bag,
                    self.combo == old(self).combo,
                    self.b2b_bonus == old(self).b2b_bonus,
                    0 <= h <= 40,
                    x < 10,
                    self.inv(),
                    self.grid() == cg,
                    forall|j: int| h <= j < 40 ==> !#[trigger] cg[j][x as int],
                decreases h,
            {
                h = h - 1;
            }
            proof {
                lemma_column_height_char(cg, x as int, 40, h as int);
            }
            let ghost prev = self.column_heights@;
            self.column_heights[x] = h;
            proof {
                assert(self.column_heights@ == prev.update(x as int, h));
                assert forall|c: int| 0 <= c < 10 && c != x implies self.column_heights@[c]
                    == prev[c] by {}
                assert forall|c: int| 0 <= c <= x implies #[trigger] self.height(c) == column_height(
                    cg,
                    c,
                    40,
                ) by {
                    if c < x {
                        assert(start.height(c) == column_height(cg, c, 40));
                    }
                }
                assert forall|c: int| x < c < 10 implies #[trigger] self.height(c) == column_height(
                    g,
                    c,
                    40,
                ) by {
                    assert(start.height(c) == column_height(g, c, 40));
                }
            }
            x = x + 1;
        }
        cleared
    }

    /// All column heights are zero.
    fn heights_all_zero(&self) -> (b: bool)
        ensures
            b == (forall|x: int| 0 <= x < 10 ==> #[trigger] self.height(x) == 0),
    {
        let mut x: usize = 0;
        while x < 10
            invariant
                x <= 10,
                forall|c: int| 0 <= c < x ==> #[trigger] self.height(c) == 0,
            decreases 10 - x,
        {
            if self.column_heights[x] != 0 {
                assert(self.height(x as int) != 0);
                return false;
            }
            x = x + 1;
        }
        true
    }

    /// Fills the cells of `piece`, keeping the column heights exact; returns whether every cell
    /// lies in the top half of the playfield.
    fn place_cells(&mut self, piece: &FallingPiece) -> (locked_out: bool)
        requires
            old(self).wf(),
            piece.in_range(),
            forall|i: int|
                0 <= i < 4 ==> 0 <= #[trigger] piece.cell(i).0 < 10 && 0 <= piece.cell(i).1 < 40,
        ensures
            final(self).wf(),
            final(self).grid() == placed_grid(old(self).grid(), *piece),
            locked_out == (forall|i: int| 0 <= i < 4 ==> #[trigger] piece.cell(i).1 >= 20),
            final(self).queue() == old(self).queue(),
            final(self).hold_piece == old(self).hold_piece,
            final(self).bag == old(self).bag,
            final(self).combo == old(self).combo,
            final(self).b2b_bonus == old(self).b2b_bonus,
    {
        let cells = piece.cells();
        let color = piece.kind.0.color();
        let mut locked_out = true;
        let ghost g0 = self.grid();
        proof {
            old(self).lemma_inv();
        }
        let mut i: usize = 0;
        while i < 4
            invariant
                i <= 4,
                self.wf(),
                color == piece_color(piece.kind.0),
                g0.len() == 40,
                forall|y: int| 0 <= y < 40 ==> (#[trigger] g0[y]).len() == 10,
                piece.in_range(),
                forall|k: int|
                    0 <= k < 4 ==> (cells@[k].0 as int, cells@[k].1 as int) == #[trigger] piece.cell(
                        k,
                    ),
                forall|k: int|
                    0 <= k < 4 ==> 0 <= #[trigger] piece.cell(k).0 < 10 && 0 <= piece.cell(k).1
                        < 40,
                forall|y: int, x: int|
                    0 <= y < 40 && 0 <= x < 10 ==> #[trigger] self.grid()[y][x] == (g0[y][x]
                        || covers_upto(*piece, i as int, x, y)),
                locked_out == (forall|k: int| 0 <= k < i ==> #[trigger] piece.cell(k).1 >= 20),
                self.next_pieces == old(self).next_pieces,
                self.hold_piece == old(self).hold_piece,
                self.bag == old(self).bag,
                self.combo == old(self).combo,
                self.b2b_bonus == old(self).b2b_bonus,
            decreases 4 - i,
        {
            let (x, y) = cells[i];
            assert(piece.cell(i as int) == (x as int, y as int));
            let ghost before = self.grid();
            let ghost start = *self;
            proof {
                self.lemma_inv();
            }
            let mut r = self.cells[y as usize];
            r.set(x as usize, color);
            self.cells.set(y as usize, r);
            let ghost after = self.grid();
            proof {
                self.lemma_inv();
                assert(color != CellColor::Empty);
                assert(self.cells@[y as int] == r);
                assert(after[y as int][x as int] == r.filled(x as int));
                assert forall|yy: int, xx: int|
                    0 <= yy < 40 && 0 <= xx < 10 && (yy != y || xx != x) implies #[trigger] after[yy][xx]
                    == before[yy][xx] by {}
                lemma_fill_cell_heights(before, after, x as int, y as int);
                assert(self.height(x as int) == start.height(x as int));
                assert(start.height(x as int) == column_height(before, x as int, 40));
                lemma_column_height_props(before, x as int, 40);
            }
            let ghost mid = self.column_heights@;
            if self.column_heights[x as usize] < y + 1 {
                self.column_heights[x as usize] = y + 1;
            }
            proof {
                assert forall|c: int| 0 <= c < 10 implies #[trigger] self.height(c) == column_height(
                    self.grid(),
                    c,
                    40,
                ) by {
                    if c != x {
                        assert(self.column_heights@[c] == mid[c]);
                        assert(start.height(c) == column_height(before, c, 40));
                    }
                }
                assert forall|yy: int, xx: int| 0 <= yy < 40 && 0 <= xx < 10 implies #[trigger] self.grid()[yy][xx]
                    == (g0[yy][xx] || covers_upto(*piece, i + 1, xx, yy)) by {
                    assert(before[yy][xx] == (g0[yy][xx] || covers_upto(*piece, i as int, xx, yy)));
                    if covers_upto(*piece, i + 1, xx, yy) && !covers_upto(*piece, i as int, xx, yy) {
                        let k = choose|k: int| 0 <= k < i + 1 && #[trigger] piece.cell(k) == (xx, yy);
                        assert(k == i);
                    }
                    if covers_upto(*piece, i as int, xx, yy) {
                        let k = choose|k: int| 0 <= k < i && #[trigger] piece.cell(k) == (xx, yy);
                        assert(covers_upto(*piece, i + 1, xx, yy));
                    }
                    if xx == x && yy == y {
                        assert(piece.cell(i as int) == (xx, yy));
                        assert(covers_upto(*piece, i + 1, xx, yy));
                    }
                }
            }
            if y < 20 {
                locked_out = false;
            }
            i = i + 1;
        }
        proof {
            self.lemma_inv();
            assert forall|y: int| 0 <= y < 40 implies #[trigger] self.grid()[y] =~= placed_grid(
                g0,
                *piece,
            )[y] by {
                assert forall|x: int| 0 <= x < 10 implies self.grid()[y][x] == placed_grid(
                    g0,
                    *piece,
                )[y][x] by {
                    assert(covers_upto(*piece, 4, x, y) == piece.covers(x, y));
                }
            }
            assert(self.grid() =~= placed_grid(g0, *piece));
        }
        locked_out
    }

    /// Does all logic associated with locking a piece: clears lines, detects the clear kind,
    /// calculates garbage, maintains combo and back-to-back state, detects perfect clears and
    /// lockout.
    pub fn lock_piece(&mut self, piece: FallingPiece) -> (l: LockResult)
        requires
            old(self).wf(),
            piece.in_range(),
            forall|i: int|
                0 <= i < 4 ==> 0 <= #[trigger] piece.cell(i).0 < 10 && 0 <= piece.cell(i).1 < 40,
            full_rows(placed_grid(old(self).grid(), piece), 40).len() <= 4,
            old(self).combo_of() < u32::MAX,
        ensures
            final(self).wf(),
            final(self).grid() == clear_lines(placed_grid(old(self).grid(), piece)),
            l.cleared_lines@.len() == full_rows(placed_grid(old(self).grid(), piece), 40).len(),
            forall|i: int|
                0 <= i < l.cleared_lines@.len() ==> #[trigger] l.cleared_lines@[i] as int
                    == full_rows(placed_grid(old(self).grid(), piece), 40)[i],
            l.placement_kind == placement_kind_spec(
                full_rows(placed_grid(old(self).grid(), piece), 40).len() as int,
                piece.tspin,
            ),
            l.locked_out == (forall|i: int| 0 <= i < 4 ==> #[trigger] piece.cell(i).1 >= 20),
            l.perfect_clear == (forall|x: int, y: int|
                0 <= x < 10 && 0 <= y < 40 ==> !#[trigger] final(self).grid()[y][x]),
            l.garbage_sent == lock_outcome(
                l.placement_kind,
                old(self).b2b_of(),
                old(self).combo_of(),
                l.perfect_clear,
            ).0,
            l.b2b == lock_outcome(
                l.placement_kind,
                old(self).b2b_of(),
                old(self).combo_of(),
                l.perfect_clear,
            ).1,
            final(self).b2b_of() == lock_outcome(
                l.placement_kind,
                old(self).b2b_of(),
                old(self).combo_of(),
                l.perfect_clear,
            ).2,
            final(self).combo_of() == lock_outcome(
                l.placement_kind,
                old(self).b2b_of(),
                old(self).combo_of(),
                l.perfect_clear,
            ).3,
            l.combo == (if final(self).combo_of() == 0 {
                None::<u32>
            } else {
                Some((final(self).combo_of() - 1) as u32)
            }),
            final(self).queue() == old(self).queue(),
            final(self).hold_of() == old(self).hold_of(),
            final(self).bag_of() == old(self).bag_of(),
    {
        let locked_out = self.place_cells(&piece);
        let cleared = self.remove_cleared_lines();
        let ghost s1 = *self;
        let placement_kind = PlacementKind::get(cleared.len(), piece.tspin);
        let mut garbage_sent = placement_kind.garbage();
        let mut did_b2b = false;
        if placement_kind.is_clear() {
            if placement_kind.is_hard() {
                if self.b2b_bonus {
                    garbage_sent += 1;
                    did_b2b = true;
                }
                self.b2b_bonus = true;
            } else {
                self.b2b_bonus = false;
            }
            let index: usize = if self.combo < 11 {
                self.combo as usize
            } else {
                11
            };
            garbage_sent += combo_garbage(index);
            self.combo += 1;
        } else {
            self.combo = 0;
        }
        let perfect_clear = self.heights_all_zero();
        proof {
            assert forall|x: int| 0 <= x < 10 implies #[trigger] self.height(x) == column_height(
                self.grid(),
                x,
                40,
            ) by {
                assert(s1.height(x) == column_height(s1.grid(), x, 40));
            }
            assert forall|x: int| 0 <= x < 10 implies (#[trigger] self.height(x) == 0) == (forall|
                y: int,
            | 0 <= y < 40 ==> !self.grid()[y][x]) by {
                lemma_column_height_props(self.grid(), x, 40);
                if forall|y: int| 0 <= y < 40 ==> !self.grid()[y][x] {
                    lemma_column_height_char(self.grid(), x, 40, 0);
                }
            }
        }
        proof {
            if perfect_clear {
                assert forall|x: int, y: int| 0 <= x < 10 && 0 <= y < 40 implies !#[trigger] self.grid()[y][x] by {
                    assert(self.height(x) == 0);
                }
            } else {
                let x = choose|x: int| 0 <= x < 10 && #[trigger] self.height(x) != 0;
                assert(!(forall|y: int| 0 <= y < 40 ==> !self.grid()[y][x]));
            }
        }
        if perfect_clear {
            garbage_sent = 10;
        }
        let combo = if self.combo == 0 {
            None
        } else {
            Some(self.combo - 1)
        };
        LockResult {
            placement_kind,
            garbage_sent,
            perfect_clear,
            locked_out,
            combo,
            b2b: did_b2b,
            cleared_lines: cleared,
        }
    }

    /// Pushes a garbage row with a hole in column `col` in from the bottom; returns whether a
    /// filled cell was pushed out of the top.
    pub fn add_garbage(&mut self, col: usize) -> (dead: bool)
        requires
            old(self).wf(),
        ensures
            final(self).inv(),
            dead == !row_empty(old(self).grid()[39]),
            final(self).grid() == seq![garbage_row(col as int)] + old(self).grid().take(39),
            forall|x: int|
                0 <= x < 10 ==> #[trigger] final(self).height(x) == if x == col && old(
                    self,
                ).height(x) == 0 {
                    0
                } else {
                    old(self).height(x) + 1
                },
            !dead ==> final(self).wf(),
            final(self).queue() == old(self).queue(),
            final(self).hold_of() == old(self).hold_of(),
            final(self).bag_of() == old(self).bag_of(),
            final(self).combo_of() == old(self).combo_of(),
            final(self).b2b_of() == old(self).b2b_of(),
    {
        proof {
            old(self).lemma_heights();
            old(self).lemma_inv();
        }
        let mut row = R::empty();
        let mut x: usize = 0;
        while x < 10
            invariant
                x <= 10,
                row.wf(),
                forall|c: int| 0 <= c < 10 ==> #[trigger] row.filled(c) == (c < x && c != col),
                forall|c: int| 0 <= c < 10 ==> 0 <= #[trigger] old(self).height(c) <= 40,
                forall|c: int|
                    0 <= c < x ==> #[trigger] self.column_heights@[c] == if c == col && old(
                        self,
                    ).height(c) == 0 {
                        0
                    } else {
                        old(self).height(c) + 1
                    },
                forall|c: int| x <= c < 10 ==> #[trigger] self.column_heights@[c] == old(self).height(c),
                self.cells == old(self).cells,
                self.next_pieces == old(self).next_pieces,
                self.hold_piece == old(self).hold_piece,
                self.bag == old(self).bag,
                self.combo == old(self).combo,
                self.b2b_bonus == old(self).b2b_bonus,
            decreases 10 - x,
        {
            let ghost prev = self.column_heights@;
            if x == col {
                if self.column_heights[x] != 0 {
                    self.column_heights[x] += 1;
                }
            } else {
                row.set(x, CellColor::Garbage);
                self.column_heights[x] += 1;
            }
            proof {
                assert forall|c: int| 0 <= c < 10 && c != x implies #[trigger] self.column_heights@[c]
                    == prev[c] by {}
            }
            x = x + 1;
        }
        let top = self.cells.pop();
        let dead = match top {
            Some(r) => {
                proof {
                    assert(r == old(self).cells@[39]);
                    assert forall|c: int| 0 <= c < 10 implies old(self).grid()[39][c] == r.filled(c) by {}
                }
                !r.is_empty()
            },
            None => false,
        };
        self.cells.insert(0, row);
        proof {
            assert(row_view(row) =~= garbage_row(col as int));
            assert(self.grid() =~= seq![garbage_row(col as int)] + old(self).grid().take(39));
            assert(dead == !row_empty(old(self).grid()[39]));
            if !dead {
                assert forall|c: int| 0 <= c < 10 implies #[trigger] self.height(c) == column_height(
                    self.grid(),
                    c,
                    40,
                ) by {
                    assert(old(self).height(c) == column_height(old(self).grid(), c, 40));
                    assert forall|y: int| 0 <= y < 39 implies #[trigger] self.grid()[y + 1][c]
                        == old(self).grid()[y][c] by {}
                    lemma_shift_up_height(old(self).grid(), self.grid(), c, c != col);
                }
            }
        }
        dead
    }

    /// Replaces the playfield with `field` (indexed by row, then column), recomputing the column
    /// heights.
    pub fn set_field(&mut self, field: [[bool; 10]; 40])
        ensures
            final(self).wf(),
            forall|x: int, y: int|
                0 <= x < 10 && 0 <= y < 40 ==> #[trigger] final(self).grid()[y][x] == field@[y]@[x],
            final(self).queue() == old(self).queue(),
            final(self).hold_of() == old(self).hold_of(),
            final(self).bag_of() == old(self).bag_of(),
            final(self).combo_of() == old(self).combo_of(),
            final(self).b2b_of() == old(self).b2b_of(),
    {
        let ghost fg = Seq::new(40, |y: int| Seq::new(10, |x: int| field@[y]@[x]));
        self.cells.clear();
        self.column_heights = [0; 10];
        let mut y: usize = 0;
        while y < 40
            invariant
                y <= 40,
                fg == Seq::new(40, |yy: int| Seq::new(10, |x: int| field@[yy]@[x])),
                self.cells@.len() == y,
                forall|j: int| 0 <= j < y ==> #[trigger] self.cells@[j].wf(),
                forall|j: int, x: int|
                    0 <= j < y && 0 <= x < 10 ==> #[trigger] self.cells@[j].filled(x) == fg[j][x],
                forall|c: int| 0 <= c < 10 ==> #[trigger] self.column_heights@[c] == column_height(
                    fg,
                    c,
                    y as int,
                ),
                self.next_pieces == old(self).next_pieces,
                self.hold_piece == old(self).hold_piece,
                self.bag == old(self).bag,
                self.combo == old(self).combo,
                self.b2b_bonus == old(self).b2b_bonus,
            decreases 40 - y,
        {
            let mut r = R::empty();
            let mut x: usize = 0;
            while x < 10
                invariant
                    x <= 10,
                    y < 40,
                    r.wf(),
                    fg == Seq::new(40, |yy: int| Seq::new(10, |x: int| field@[yy]@[x])),
                    forall|c: int| 0 <= c < 10 ==> #[trigger] r.filled(c) == (c < x && fg[y as int][c]),
                    forall|c: int|
                        0 <= c < x ==> #[trigger] self.column_heights@[c] == column_height(
                            fg,
                            c,
                            y + 1,
                        ),
                    forall|c: int|
                        x <= c < 10 ==> #[trigger] self.column_heights@[c] == column_height(
                            fg,
                            c,
                            y as int,
                        ),
                    self.cells@.len() == y,
                    forall|j: int| 0 <= j < y ==> #[trigger] self.cells@[j].wf(),
                    forall|j: int, c: int|
                        0 <= j < y && 0 <= c < 10 ==> #[trigger] self.cells@[j].filled(c) == fg[j][c],
                    self.next_pieces == old(self).next_pieces,
                    self.hold_piece == old(self).hold_piece,
                    self.bag == old(self).bag,
                    self.combo == old(self).combo,
                    self.b2b_bonus == old(self).b2b_bonus,
                decreases 10 - x,
            {
                let ghost prev = self.column_heights@;
                if field[y][x] {
                    r.set(x, CellColor::Garbage);
                    self.column_heights[x] = y as i32 + 1;
                }
                proof {
                    assert(fg[y as int][x as int] == field@[y as int]@[x as int]);
                    assert forall|c: int| 0 <= c < 10 && c != x implies #[trigger] self.column_heights@[c]
                        == prev[c] by {}
                }
                x = x + 1;
            }
            self.cells.push(r);
            y = y + 1;
        }
        proof {
            assert forall|x: int, yy: int| 0 <= x < 10 && 0 <= yy < 40 implies #[trigger] self.grid()[yy][x]
                == field@[yy]@[x] by {
                assert(self.cells@[yy].filled(x) == fg[yy][x]);
            }
            assert forall|c: int| 0 <= c < 10 implies #[trigger] self.height(c) == column_height(
                self.grid(),
                c,
                40,
            ) by {
                assert forall|yy: int| 0 <= yy < 40 implies #[trigger] self.grid()[yy][c] == fg[yy][c] by {
                    assert(self.cells@[yy].filled(c) == fg[yy][c]);
                }
                lemma_column_height_frame(self.grid(), fg, c, 40);
            }
        }
    }

    /// The playfield as a grid of booleans, indexed by row, then column.
    pub fn get_field(&self) -> (field: [[bool; 10]; 40])
        requires
            self.inv(),
        ensures
            forall|x: int, y: int|
                0 <= x < 10 && 0 <= y < 40 ==> #[trigger] field@[y]@[x] == self.grid()[y][x],
    {
        let mut field = [[false; 10]; 40];
        let mut y: usize = 0;
        while y < 40
            invariant
                y <= 40,
                self.inv(),
                forall|x: int, yy: int|
                    0 <= x < 10 && 0 <= yy < y ==> #[trigger] field@[yy]@[x] == self.grid()[yy][x],
            decreases 40 - y,
        {
            let mut row = [false; 10];
            let mut x: usize = 0;
            while x < 10
                invariant
                    x <= 10,
                    y < 40,
                    self.inv(),
                    forall|c: int| 0 <= c < x ==> #[trigger] row@[c] == self.grid()[y as int][c],
                decreases 10 - x,
            {
                row[x] = self.occupied(x as i32, y as i32);
                x = x + 1;
            }
            field[y] = row;
            y = y + 1;
        }
        field
    }

    /// Some cell of `p`, moved by `(dx, dy)`, is filled or outside the playfield.
    pub open spec fn collides(&self, p: FallingPiece, dx: int, dy: int) -> bool {
        collides_g(self.grid(), p, dx, dy)
    }

    /// The row that the center of `p`, falling from row `y`, comes to rest on.
    pub open spec fn drop_to(&self, p: FallingPiece, y: int) -> int {
        drop_to_g(self.grid(), p, y)
    }

    /// Collision only depends on where the cells end up.
    pub proof fn lemma_collides_shift(&self, p: FallingPiece, q: FallingPiece, dy: int)
        requires
            p.kind == q.kind,
            p.x == q.x,
        ensures
            self.collides(q, 0, dy) == self.collides(p, 0, dy + q.y - p.y),
    {
        if self.collides(q, 0, dy) {
            let i = choose|i: int|
                0 <= i < 4 && #[trigger] occ_grid(self.grid(), q.cell(i).0 + 0, q.cell(i).1 + dy);
            assert(occ_grid(self.grid(), p.cell(i).0 + 0, p.cell(i).1 + (dy + q.y - p.y)));
        }
        if self.collides(p, 0, dy + q.y - p.y) {
            let i = choose|i: int|
                0 <= i < 4 && #[trigger] occ_grid(
                    self.grid(),
                    p.cell(i).0 + 0,
                    p.cell(i).1 + (dy + q.y - p.y),
                );
            assert(occ_grid(self.grid(), q.cell(i).0 + 0, q.cell(i).1 + dy));
        }
    }

    /// `p` moved down by `d` rows fits.
    pub open spec fn drop_free(&self, p: FallingPiece, d: int) -> bool {
        !self.collides(p, 0, -d)
    }

    /// Creates a board with the given field, pieces left in the bag (an empty set stands for a
    /// full bag), hold piece, back-to-back status and combo count.
    pub fn new_with_state(
        field: [[bool; 10]; 40],
        bag_remain: PieceSet,
        hold: Option<Piece>,
        b2b: bool,
        combo: u32,
    ) -> (b: Self)
        ensures
            b.wf(),
            forall|x: int, y: int|
                0 <= x < 10 && 0 <= y < 40 ==> #[trigger] b.grid()[y][x] == field@[y]@[x],
            b.queue() == Seq::<Piece>::empty(),
            b.bag_of() == (if bag_remain == PieceSet::empty_set() {
                PieceSet::full_set()
            } else {
                bag_remain
            }),
            b.hold_of() == hold,
            b.combo_of() == combo,
            b.b2b_of() == b2b,
    {
        let mut board: Board<R> = Board::new();
        board.combo = combo;
        board.b2b_bonus = b2b;
        board.hold_piece = hold;
        board.bag = if bag_remain.is_empty() {
            PieceSet::all()
        } else {
            bag_remain
        };
        board.set_field(field);
        board
    }

    /// The pieces that may still come out of the current bag, accounting for the known queue.
    pub fn next_bag(&self) -> (bag: PieceSet)
        ensures
            bag == bag_back(self.bag_of(), self.queue()),
    {
        let q = self.next_queue();
        let mut bag = self.bag;
        let mut i: usize = q.len();
        assert(q@.take(q@.len() as int) =~= q@);
        while i > 0
            invariant
                i <= q@.len(),
                q@ == self.queue(),
                bag_back(bag, q@.take(i as int)) == bag_back(self.bag, q@),
            decreases i,
        {
            proof {
                assert(q@.take(i as int).drop_last() =~= q@.take(i - 1));
                assert(q@.take(i as int).last() == q@[i - 1]);
            }
            if bag.is_all() {
                bag = PieceSet::empty();
            }
            bag.insert(q[i - 1]);
            i = i - 1;
        }
        assert(q@.take(q@.len() as int) =~= q@);
        bag
    }

    /// The same board with its rows packed into bits, without colors.
    pub fn to_compressed(&self) -> (b: Board<u16>)
        requires
            self.wf(),
        ensures
            b.wf(),
            b.grid() == self.grid(),
            b.queue() == self.queue(),
            b.hold_of() == self.hold_of(),
            b.bag_of() == self.bag_of(),
            b.combo_of() == self.combo_of(),
            b.b2b_of() == self.b2b_of(),
    {
        let mut cells: Vec<u16> = Vec::new();
        let mut y: usize = 0;
        while y < 40
            invariant
                y <= 40,
                self.inv(),
                cells@.len() == y,
                forall|j: int| 0 <= j < y ==> #[trigger] cells@[j].wf(),
                forall|j: int, x: int|
                    0 <= j < y && 0 <= x < 10 ==> #[trigger] cells@[j].filled(x) == self.cells@[j].filled(x),
            decreases 40 - y,
        {
            let r = self.cells[y];
            let mut row: u16 = 0;
            proof {
                assert forall|x: int| !#[trigger] 0u16.filled(x) by {
                    if 0 <= x < 10 {
                        crate::row::lemma_zero_bits(x as u16);
                    }
                }
            }
            let mut x: usize = 0;
            while x < 10
                invariant
                    x <= 10,
                    y < 40,
                    self.inv(),
                    r == self.cells@[y as int],
                    row.wf(),
                    forall|c: int| #[trigger] row.filled(c) == (0 <= c < x && r.filled(c)),
                decreases 10 - x,
            {
                let c = r.cell_color(x);
                proof {
                    R::lemma_color(r, x as int);
                }
                row.set(x, c);
                x = x + 1;
            }
            cells.push(row);
            y = y + 1;
        }
        let b = Board {
            cells,
            column_heights: self.column_heights,
            combo: self.combo,
            b2b_bonus: self.b2b_bonus,
            hold_piece: self.hold_piece,
            next_pieces: self.next_pieces.clone(),
            bag: self.bag,
        };
        proof {
            assert(b.next_pieces@ =~= self.next_pieces@);
            assert forall|j: int| 0 <= j < 40 implies #[trigger] b.grid()[j] =~= self.grid()[j] by {}
            assert(b.grid() =~= self.grid());
            assert forall|x: int| 0 <= x < 10 implies #[trigger] b.height(x) == column_height(
                b.grid(),
                x,
                40,
            ) by {
                assert(self.height(x) == column_height(self.grid(), x, 40));
            }
        }
        b
    }

    /// Randomly selects a piece from the bag, without removing it from the bag.
    pub fn generate_next_piece(&self, rng: &mut Mcg128Xsl64) -> (p: Piece)
        requires
            self.bag_of() != PieceSet::empty_set(),
        ensures
            self.bag_of().has(p),
    {
        let choices = self.bag.to_vec();
        proof {
            self.bag.lemma_full_iff();
            self.bag.lemma_members();
        }
        match choose_piece(rng, &choices) {
            Some(p) => {
                proof {
                    let k = choose|k: int| 0 <= k < choices@.len() && choices@[k] == p;
                }
                p
            },
            None => {
                proof {
                    assert(false);
                }
                Piece::I
            },
        }
    }

    /// A copy of the board.
    pub fn clone_board(&self) -> (b: Self)
        requires
            self.inv(),
        ensures
            b.rows() == self.rows(),
            b.grid() == self.grid(),
            b.heights_seq() == self.heights_seq(),
            forall|x: int| 0 <= x < 10 ==> #[trigger] b.height(x) == self.height(x),
            b.inv(),
            self.wf() ==> b.wf(),
            b.queue() == self.queue(),
            b.hold_of() == self.hold_of(),
            b.bag_of() == self.bag_of(),
            b.combo_of() == self.combo_of(),
            b.b2b_of() == self.b2b_of(),
    {
        let mut cells: Vec<R> = Vec::new();
        let mut y: usize = 0;
        while y < 40
            invariant
                y <= 40,
                self.inv(),
                cells@ == self.cells@.take(y as int),
            decreases 40 - y,
        {
            cells.push(self.cells[y]);
            proof {
                assert(self.cells@.take(y + 1) =~= self.cells@.take(y as int).push(self.cells@[y as int]));
            }
            y = y + 1;
        }
        assert(self.cells@.take(40) =~= self.cells@);
        let q = self.next_queue();
        let mut next_pieces: VecDeque<Piece> = VecDeque::new();
        let mut i: usize = 0;
        while i < q.len()
            invariant
                i <= q@.len(),
                next_pieces@ == q@.take(i as int),
            decreases q@.len() - i,
        {
            next_pieces.push_back(q[i]);
            proof {
                assert(q@.take(i + 1) =~= q@.take(i as int).push(q@[i as int]));
            }
            i = i + 1;
        }
        assert(q@.take(q@.len() as int) =~= q@);
        let b = Board {
            cells,
            column_heights: self.column_heights,
            combo: self.combo,
            b2b_bonus: self.b2b_bonus,
            hold_piece: self.hold_piece,
            next_pieces,
            bag: self.bag,
        };
        proof {
            if self.wf() {
                assert forall|x: int| 0 <= x < 10 implies #[trigger] b.height(x) == column_height(
                    b.grid(),
                    x,
                    40,
                ) by {
                    assert(self.height(x) == column_height(self.grid(), x, 40));
                }
            }
        }
        b
    }

    /// The held piece.
    pub fn held_piece(&self) -> (h: Option<Piece>)
        ensures
            h == self.hold_of(),
    {
        self.hold_piece
    }

    /// Sets the combo counter and the back-to-back flag.
    pub fn set_counters(&mut self, combo: u32, b2b: bool)
        ensures
            final(self).combo_of() == combo,
            final(self).b2b_of() == b2b,
            final(self).rows() == old(self).rows(),
            final(self).heights_seq() == old(self).heights_seq(),
            final(self).queue() == old(self).queue(),
            final(self).hold_of() == old(self).hold_of(),
            final(self).bag_of() == old(self).bag_of(),
    {
        self.combo = combo;
        self.b2b_bonus = b2b;
    }

    /// The combo counter.
    pub fn combo_count(&self) -> (c: u32)
        ensures
            c == self.combo_of(),
    {
        self.combo
    }

    /// The back-to-back bonus is active.
    pub fn has_back_to_back_active(&self) -> (b: bool)
        ensures
            b == self.b2b_of(),
    {
        self.b2b_bonus
    }
}


impl FallingPiece {
    /// The same piece moved by `(dx, dy)`.
    pub open spec fn moved(self, dx: int, dy: int) -> FallingPiece {
        FallingPiece { x: (self.x + dx) as i32, y: (self.y + dy) as i32, ..self }
    }

    /// Moves the piece by `(dx, dy)` unless that position is blocked; a piece that moved is no
    /// longer a T-spin. Returns whether it moved.
    pub fn shift<R: Row>(&mut self, board: &Board<R>, dx: i32, dy: i32) -> (moved: bool)
        requires
            board.inv(),
            -1 <= dx <= 1,
            -1 <= dy <= 1,
            i32::MIN + 2 <= old(self).x + dx <= i32::MAX - 2,
            i32::MIN + 3 <= old(self).y + dy <= i32::MAX - 3,
        ensures
            moved == !board.collides(*old(self), dx as int, dy as int),
            moved ==> *final(self) == (FallingPiece {
                tspin: TspinStatus::NoSpin,
                ..old(self).moved(dx as int, dy as int)
            }),
            !moved ==> *final(self) == *old(self),
    {
        let mut p = *self;
        p.x = self.x + dx;
        p.y = self.y + dy;
        let blocked = board.obstructed(&p);
        proof {
            assert forall|i: int| 0 <= i < 4 implies #[trigger] p.cell(i) == (old(self).cell(i).0 + dx,
                old(self).cell(i).1 + dy) by {}
            if blocked {
                let i = choose|i: int| 0 <= i < 4 && occ_grid(board.grid(), p.cell(i).0, p.cell(i).1);
                assert(occ_grid(board.grid(), old(self).cell(i).0 + dx, old(self).cell(i).1 + dy));
            }
            if board.collides(*old(self), dx as int, dy as int) {
                let i = choose|i: int|
                    0 <= i < 4 && #[trigger] occ_grid(board.grid(), 
                        old(self).cell(i).0 + dx,
                        old(self).cell(i).1 + dy,
                    );
                assert(occ_grid(board.grid(), p.cell(i).0, p.cell(i).1));
            }
        }
        if blocked {
            false
        } else {
            p.tspin = TspinStatus::NoSpin;
            *self = p;
            true
        }
    }

    /// Drops the piece straight down as far as it goes; returns whether it moved.
    pub fn sonic_drop<R: Row>(&mut self, board: &Board<R>) -> (moved: bool)
        requires
            board.inv(),
            old(self).in_range(),
        ensures
            final(self).in_range(),
            final(self).x == old(self).x,
            final(self).kind == old(self).kind,
            final(self).y <= old(self).y,
            forall|d: int| 0 < d <= old(self).y - final(self).y ==> #[trigger] board.drop_free(*old(self), d),
            board.collides(*final(self), 0, -1),
            final(self).y == board.drop_to(*old(self), old(self).y as int),
            moved == (final(self).y < old(self).y),
            moved ==> final(self).tspin == TspinStatus::NoSpin,
            !moved ==> final(self).tspin == old(self).tspin,
    {
        let ghost start = *self;
        let mut moved = false;
        loop
            invariant
                start == *old(self),
                board.inv(),
                self.in_range(),
                self.x == start.x,
                self.kind == start.kind,
                self.y <= start.y,
                forall|d: int| 0 < d <= start.y - self.y ==> #[trigger] board.drop_free(start, d),
                board.drop_to(start, self.y as int) == board.drop_to(start, start.y as int),
                moved == (self.y < start.y),
                moved ==> self.tspin == TspinStatus::NoSpin,
                !moved ==> self.tspin == start.tspin,
            ensures
                self.y == board.drop_to(start, start.y as int),
                self.in_range(),
                self.x == start.x,
                self.kind == start.kind,
                self.y <= start.y,
                forall|d: int| 0 < d <= start.y - self.y ==> #[trigger] board.drop_free(start, d),
                board.collides(*self, 0, -1),
                moved == (self.y < start.y),
                moved ==> self.tspin == TspinStatus::NoSpin,
                !moved ==> self.tspin == start.tspin,
            decreases self.y - i32::MIN,
        {
            let ghost before = *self;
            proof {
                lemma_center(self.kind);
                let c = center_index(self.kind.0);
                if self.y - 1 < 0 {
                    assert(occ_grid(board.grid(), self.cell(c).0 + 0, self.cell(c).1 + -1));
                    assert(board.collides(*self, 0, -1));
                }
            }
            proof {
                board.lemma_collides_shift(start, *self, -1);
            }
            if self.y - 1 < i32::MIN + 3 || !self.shift(board, 0, -1) {
                return moved;
            }
            proof {
                assert forall|i: int| 0 <= i < 4 implies #[trigger] before.cell(i) == (start.cell(i).0,
                    start.cell(i).1 - (start.y - before.y)) by {}
                assert forall|d: int| 0 < d <= start.y - self.y implies #[trigger] board.drop_free(start, d) by {
                    if d == start.y - self.y {
                        if board.collides(start, 0, -d) {
                            let i = choose|i: int|
                                0 <= i < 4 && #[trigger] occ_grid(board.grid(), start.cell(i).0 + 0, start.cell(i).1 + -d);
                            assert(occ_grid(board.grid(), before.cell(i).0 + 0, before.cell(i).1 + -1));
                        }
                    }
                }
            }
            moved = true;
        }
    }
}

} // verus!
