use vstd::prelude::*;
use crate::board::{Board, column_height, lemma_column_height_props, row_view, occ_grid};
use crate::row::Row;
use crate::evaluation::{sum_range, lemma_sum_range_bounds};

verus! {

/// Height of column `x` of grid `g`.
pub open spec fn hgt(g: Seq<Seq<bool>>, x: int) -> int {
    column_height(g, x, 40)
}

/// The highest of the first `n` column heights.
pub open spec fn max_height(g: Seq<Seq<bool>>, n: int) -> int
    decreases n,
{
    if n <= 1 {
        hgt(g, 0)
    } else if hgt(g, n - 1) > max_height(g, n - 1) {
        hgt(g, n - 1)
    } else {
        max_height(g, n - 1)
    }
}

/// The rightmost lowest column among the first `n` columns.
pub open spec fn well_column(g: Seq<Seq<bool>>, n: int) -> int
    decreases n,
{
    if n <= 1 {
        0
    } else if hgt(g, n - 1) <= hgt(g, well_column(g, n - 1)) {
        n - 1
    } else {
        well_column(g, n - 1)
    }
}

/// The well is one of the first `n` columns.
pub proof fn lemma_well_column_range(g: Seq<Seq<bool>>, n: int)
    requires
        n >= 1,
    ensures
        0 <= well_column(g, n) < n,
    decreases n,
{
    if n > 1 {
        lemma_well_column_range(g, n - 1);
    }
}

/// Every cell of row `y` outside column `well` is filled.
pub open spec fn row_filled_except(g: Seq<Seq<bool>>, well: int, y: int) -> bool {
    forall|x: int| 0 <= x < 10 && x != well ==> #[trigger] occ_grid(g, x, y)
}

/// How many rows from `y` up to row 19 are filled everywhere but the well.
pub open spec fn well_depth_from(g: Seq<Seq<bool>>, well: int, y: int) -> int
    decreases 20 - y,
{
    if y >= 20 {
        0
    } else if row_filled_except(g, well, y) {
        1 + well_depth_from(g, well, y + 1)
    } else {
        0
    }
}

/// The column that bumpiness compares column `i` against: the last column before `i` that is
/// not the well.
pub open spec fn bump_prev(well: int, i: int) -> int
    decreases i,
{
    if i <= 1 {
        if well == 0 {
            1
        } else {
            0
        }
    } else if i - 1 == well {
        bump_prev(well, i - 1)
    } else {
        i - 1
    }
}

/// The height change that bumpiness counts at column `i`.
pub open spec fn bump_step(g: Seq<Seq<bool>>, well: int, i: int) -> int {
    if i == well {
        0
    } else {
        let d = hgt(g, bump_prev(well, i)) - hgt(g, i);
        if d < 0 {
            -d
        } else {
            d
        }
    }
}

/// Absolute value.
pub open spec fn abs(v: int) -> int {
    if v < 0 {
        -v
    } else {
        v
    }
}

/// The bumpiness outside the well: the sum of the height changes, and the sum of their squares.
pub open spec fn bumpiness_spec(g: Seq<Seq<bool>>, well: int) -> (int, int) {
    (
        sum_range(1, 10, |i: int| bump_step(g, well, i)),
        sum_range(1, 10, |i: int| bump_step(g, well, i) * bump_step(g, well, i)),
    )
}

/// Cell `(x, y)` is an empty cell under the top of its column that is reachable from the side:
/// two columns to its left or right are low enough.
pub open spec fn is_overhang(g: Seq<Seq<bool>>, x: int, y: int) -> bool {
    &&& !occ_grid(g, x, y)
    &&& y < hgt(g, x)
    &&& ((x > 1 && hgt(g, x - 1) <= y - 1 && hgt(g, x - 2) <= y) || (x < 8 && hgt(g, x + 1)
        <= y - 1 && hgt(g, x + 2) <= y))
}

/// Cell `(x, y)` is an empty cell under the top of its column that is not an overhang.
pub open spec fn is_cavity(g: Seq<Seq<bool>>, x: int, y: int) -> bool {
    !occ_grid(g, x, y) && y < hgt(g, x) && !is_overhang(g, x, y)
}

/// `1` when `c` holds, `0` otherwise.
pub open spec fn count(c: bool) -> int {
    if c {
        1
    } else {
        0
    }
}

/// The number of cavity cells and of overhang cells below the highest column top.
pub open spec fn holes_spec(g: Seq<Seq<bool>>) -> (int, int) {
    (
        sum_range(
            0,
            max_height(g, 10),
            |y: int| sum_range(0, 10, |x: int| count(is_cavity(g, x, y))),
        ),
        sum_range(
            0,
            max_height(g, 10),
            |y: int| sum_range(0, 10, |x: int| count(is_overhang(g, x, y))),
        ),
    )
}

/// The filled cells above the topmost hole of column `x`, scanning down from row `y` having seen
/// `cells` of them; zero when the column has no hole.
pub open spec fn cover_from(g: Seq<Seq<bool>>, x: int, y: int, cells: int) -> int
    decreases y + 1,
{
    if y < 0 {
        0
    } else if !occ_grid(g, x, y) {
        cells
    } else {
        cover_from(g, x, y - 1, cells + 1)
    }
}

/// The filled cells above the topmost hole of column `x`.
pub open spec fn top_cover(g: Seq<Seq<bool>>, x: int) -> int {
    cover_from(g, x, hgt(g, x) - 1, 0)
}

/// How covered the topmost holes of the columns are: for each column the filled cells above its
/// topmost hole, summed, and the sum of their squares.
pub open spec fn covered_spec(g: Seq<Seq<bool>>) -> (int, int) {
    (
        sum_range(0, 10, |x: int| top_cover(g, x)),
        sum_range(0, 10, |x: int| top_cover(g, x) * top_cover(g, x)),
    )
}

/// The number of set bits among the lowest `n` bits of `v`.
pub open spec fn popcount(v: u16, n: int) -> int
    decreases n,
{
    if n <= 0 {
        0
    } else {
        popcount(v, n - 1) + (if (v >> ((n - 1) as u16)) & 1u16 == 1u16 {
            1int
        } else {
            0
        })
    }
}

/// Cell `k` of a row, with filled walls outside columns `0..10`.
pub open spec fn cell_or_wall(row: Seq<bool>, k: int) -> bool {
    if k < 0 || k >= 10 {
        true
    } else {
        row[k]
    }
}

/// The number of changes between filled and empty cells along a row, with a filled wall on each
/// side.
pub open spec fn row_transitions_spec(row: Seq<bool>) -> int {
    sum_range(0, 11, |k: int| count(cell_or_wall(row, k) != cell_or_wall(row, k - 1)))
}

/// The number of set bits of `v`.
pub fn count_ones(v: u16) -> (n: u32)
    ensures
        n as int == popcount(v, 16),
{
    let mut n: u32 = 0;
    let mut k: u16 = 0;
    while k < 16
        invariant
            k <= 16,
            n as int == popcount(v, k as int),
            n <= k,
        decreases 16 - k,
    {
        if (v >> k) & 1u16 == 1u16 {
            n = n + 1;
        }
        k = k + 1;
    }
    n
}

/// Under the board invariant the stored heights are the grid's column heights, in `0..=40`.
pub proof fn lemma_board_heights(board: &Board)
    requires
        board.wf(),
    ensures
        forall|c: int| 0 <= c < 10 ==> #[trigger] board.height(c) == hgt(board.grid(), c),
        forall|c: int| 0 <= c < 10 ==> 0 <= #[trigger] hgt(board.grid(), c) <= 40,
{
    assert forall|c: int| 0 <= c < 10 implies 0 <= #[trigger] hgt(board.grid(), c) <= 40 by {
        lemma_column_height_props(board.grid(), c, 40);
    }
}

/// The highest column top.
pub fn highest_point(board: &Board) -> (h: i32)
    requires
        board.wf(),
    ensures
        h as int == max_height(board.grid(), 10),
        0 <= h <= 40,
{
    proof {
        lemma_board_heights(board);
    }
    let heights = board.column_heights();
    let mut h = heights[0];
    let mut x: usize = 1;
    while x < 10
        invariant
            1 <= x <= 10,
            forall|c: int| 0 <= c < 10 ==> #[trigger] heights@[c] as int == hgt(board.grid(), c),
            forall|c: int| 0 <= c < 10 ==> 0 <= #[trigger] hgt(board.grid(), c) <= 40,
            h as int == max_height(board.grid(), x as int),
            0 <= h <= 40,
        decreases 10 - x,
    {
        if heights[x] > h {
            h = heights[x];
        }
        x = x + 1;
    }
    h
}

/// Column `x` does not rise above column height `h` of the highest column.
pub proof fn lemma_max_height(g: Seq<Seq<bool>>, n: int, x: int)
    requires
        0 <= x < n,
    ensures
        hgt(g, x) <= max_height(g, n),
    decreases n,
{
    if n > 1 {
        if x < n - 1 {
            lemma_max_height(g, n - 1, x);
        } else {
            lemma_max_height(g, n - 1, 0);
        }
    }
}

/// The rightmost lowest column.
pub fn find_well(board: &Board) -> (well: usize)
    requires
        board.wf(),
    ensures
        well as int == well_column(board.grid(), 10),
        well < 10,
{
    proof {
        lemma_board_heights(board);
    }
    let heights = board.column_heights();
    let mut well: usize = 0;
    let mut x: usize = 1;
    while x < 10
        invariant
            1 <= x <= 10,
            forall|c: int| 0 <= c < 10 ==> #[trigger] heights@[c] as int == hgt(board.grid(), c),
            well as int == well_column(board.grid(), x as int),
            well < x,
        decreases 10 - x,
    {
        if heights[x] <= heights[well] {
            well = x;
        }
        x = x + 1;
    }
    well
}

/// Every cell of row `y` outside column `well` is filled.
fn row_filled_except_exec(board: &Board, well: usize, y: i32) -> (b: bool)
    requires
        board.inv(),
    ensures
        b == row_filled_except(board.grid(), well as int, y as int),
{
    let mut x: i32 = 0;
    while x < 10
        invariant
            0 <= x <= 10,
            board.inv(),
            forall|c: int| 0 <= c < x && c != well ==> #[trigger] occ_grid(board.grid(), c, y as int),
        decreases 10 - x,
    {
        if x as usize != well && !board.occupied(x, y) {
            assert(!occ_grid(board.grid(), x as int, y as int));
            return false;
        }
        x = x + 1;
    }
    true
}

/// How many rows, from the top of the well up to row 19, are filled everywhere but the well.
pub fn well_depth(board: &Board, well: usize) -> (depth: i32)
    requires
        board.wf(),
        well < 10,
    ensures
        depth as int == well_depth_from(board.grid(), well as int, hgt(board.grid(), well as int)),
        0 <= depth <= 20,
{
    proof {
        lemma_board_heights(board);
    }
    let mut depth: i32 = 0;
    let mut y: i32 = board.column_heights()[well];
    let ghost y0 = y as int;
    assert(y0 == hgt(board.grid(), well as int));
    while y < 20
        invariant
            board.inv(),
            0 <= y0 <= 40,
            y0 == hgt(board.grid(), well as int),
            y0 <= y <= 40,
            y0 < 20 ==> y <= 20,
            depth == y - y0,
            well_depth_from(board.grid(), well as int, y0) == depth + well_depth_from(
                board.grid(),
                well as int,
                y as int,
            ),
        decreases 20 - y,
    {
        if !row_filled_except_exec(board, well, y) {
            assert(well_depth_from(board.grid(), well as int, y as int) == 0);
            return depth;
        }
        depth = depth + 1;
        y = y + 1;
    }
    depth
}

/// The bumpiness outside the well: the total height change between neighbouring columns
/// (skipping the well), and the sum of the squares of the changes.
pub fn bumpiness(board: &Board, well: usize) -> (r: (i32, i32))
    requires
        board.wf(),
        well < 10,
    ensures
        r.0 as int == bumpiness_spec(board.grid(), well as int).0,
        r.1 as int == bumpiness_spec(board.grid(), well as int).1,
        0 <= r.0 <= 400,
        0 <= r.1 <= 16000,
{
    proof {
        lemma_board_heights(board);
    }
    let heights = board.column_heights();
    let mut bump: i32 = 0;
    let mut bump_sq: i32 = 0;
    let mut prev: usize = if well == 0 {
        1
    } else {
        0
    };
    let ghost f = |i: int| bump_step(board.grid(), well as int, i);
    let ghost g = |i: int| bump_step(board.grid(), well as int, i) * bump_step(board.grid(), well as int, i);
    let mut i: usize = 1;
    while i < 10
        invariant
            1 <= i <= 10,
            well < 10,
            prev < 10,
            prev as int == bump_prev(well as int, i as int),
            forall|c: int| 0 <= c < 10 ==> #[trigger] heights@[c] as int == hgt(board.grid(), c),
            forall|c: int| 0 <= c < 10 ==> 0 <= #[trigger] hgt(board.grid(), c) <= 40,
            f == (|k: int| bump_step(board.grid(), well as int, k)),
            g == (|k: int| bump_step(board.grid(), well as int, k) * bump_step(board.grid(), well as int, k)),
            bump as int == sum_range(1, i as int, f),
            bump_sq as int == sum_range(1, i as int, g),
            0 <= bump <= 40 * (i - 1),
            0 <= bump_sq <= 1600 * (i - 1),
        decreases 10 - i,
    {
        if i != well {
            let d = heights[prev] - heights[i];
            let dh = if d < 0 {
                -d
            } else {
                d
            };
            assert(dh as int == f(i as int));
            assert(dh * dh <= 1600) by (nonlinear_arith)
                requires
                    0 <= dh <= 40,
            ;
            bump = bump + dh;
            bump_sq = bump_sq + dh * dh;
            prev = i;
        }
        i = i + 1;
    }
    (bump, bump_sq)
}

/// Classifies the empty cells under the column tops below the highest column top: the number of
/// cavity cells and the number of overhang cells.
pub fn cavities_and_overhangs(board: &Board) -> (r: (i32, i32))
    requires
        board.wf(),
    ensures
        r.0 as int == holes_spec(board.grid()).0,
        r.1 as int == holes_spec(board.grid()).1,
        0 <= r.0 <= 400,
        0 <= r.1 <= 400,
{
    proof {
        lemma_board_heights(board);
    }
    let heights = board.column_heights();
    let top = highest_point(board);
    let ghost fc = |y: int| sum_range(0, 10, |x: int| count(is_cavity(board.grid(), x, y)));
    let ghost fo = |y: int| sum_range(0, 10, |x: int| count(is_overhang(board.grid(), x, y)));
    let mut cavities: i32 = 0;
    let mut overhangs: i32 = 0;
    let mut y: i32 = 0;
    while y < top
        invariant
            board.inv(),
            0 <= y <= top <= 40,
            top as int == max_height(board.grid(), 10),
            forall|c: int| 0 <= c < 10 ==> #[trigger] heights@[c] as int == hgt(board.grid(), c),
            fc == (|yy: int| sum_range(0, 10, |x: int| count(is_cavity(board.grid(), x, yy)))),
            fo == (|yy: int| sum_range(0, 10, |x: int| count(is_overhang(board.grid(), x, yy)))),
            cavities as int == sum_range(0, y as int, fc),
            overhangs as int == sum_range(0, y as int, fo),
            0 <= cavities <= 10 * y,
            0 <= overhangs <= 10 * y,
        decreases top - y,
    {
        let ghost gc = |x: int| count(is_cavity(board.grid(), x, y as int));
        let ghost go = |x: int| count(is_overhang(board.grid(), x, y as int));
        let mut rc: i32 = 0;
        let mut ro: i32 = 0;
        let mut x: usize = 0;
        while x < 10
            invariant
                board.inv(),
                0 <= y < 40,
                x <= 10,
                forall|c: int| 0 <= c < 10 ==> #[trigger] heights@[c] as int == hgt(board.grid(), c),
                gc == (|xx: int| count(is_cavity(board.grid(), xx, y as int))),
                go == (|xx: int| count(is_overhang(board.grid(), xx, y as int))),
                rc as int == sum_range(0, x as int, gc),
                ro as int == sum_range(0, x as int, go),
                0 <= rc <= x,
                0 <= ro <= x,
            decreases 10 - x,
        {
            if !(board.occupied(x as i32, y) || y >= heights[x]) {
                if x > 1 && heights[x - 1] <= y - 1 && heights[x - 2] <= y {
                    ro = ro + 1;
                } else if x < 8 && heights[x + 1] <= y - 1 && heights[x + 2] <= y {
                    ro = ro + 1;
                } else {
                    rc = rc + 1;
                }
            }
            x = x + 1;
        }
        assert(fc(y as int) == rc as int);
        assert(fo(y as int) == ro as int);
        cavities = cavities + rc;
        overhangs = overhangs + ro;
        y = y + 1;
    }
    (cavities, overhangs)
}

/// How covered the topmost hole of each column is: the filled cells above it, summed, and the
/// sum of their squares.
pub fn covered_cells(board: &Board) -> (r: (i32, i32))
    requires
        board.wf(),
    ensures
        r.0 as int == covered_spec(board.grid()).0,
        r.1 as int == covered_spec(board.grid()).1,
        0 <= r.0 <= 400,
        0 <= r.1 <= 16000,
{
    proof {
        lemma_board_heights(board);
    }
    let heights = board.column_heights();
    let ghost f = |x: int| top_cover(board.grid(), x);
    let ghost fsq = |x: int| top_cover(board.grid(), x) * top_cover(board.grid(), x);
    let mut covered: i32 = 0;
    let mut covered_sq: i32 = 0;
    let mut x: usize = 0;
    while x < 10
        invariant
            board.inv(),
            x <= 10,
            forall|c: int| 0 <= c < 10 ==> #[trigger] heights@[c] as int == hgt(board.grid(), c),
            forall|c: int| 0 <= c < 10 ==> 0 <= #[trigger] hgt(board.grid(), c) <= 40,
            f == (|xx: int| top_cover(board.grid(), xx)),
            fsq == (|xx: int| top_cover(board.grid(), xx) * top_cover(board.grid(), xx)),
            covered as int == sum_range(0, x as int, f),
            covered_sq as int == sum_range(0, x as int, fsq),
            0 <= covered <= 40 * x,
            0 <= covered_sq <= 1600 * x,
        decreases 10 - x,
    {
        let h = heights[x];
        let mut cells: i32 = 0;
        let mut y: i32 = h - 1;
        let mut found = false;
        while y >= 0
            invariant_except_break
                !found,
            invariant
                board.inv(),
                x < 10,
                0 <= h <= 40,
                h as int == hgt(board.grid(), x as int),
                -1 <= y < h,
                cells == h - 1 - y,
                cover_from(board.grid(), x as int, h - 1, 0) == cover_from(
                    board.grid(),
                    x as int,
                    y as int,
                    cells as int,
                ),
            ensures
                found ==> cover_from(board.grid(), x as int, h - 1, 0) == cells,
                !found ==> cover_from(board.grid(), x as int, h - 1, 0) == 0,
                0 <= cells <= 40,
            decreases y + 1,
        {
            if !board.occupied(x as i32, y) {
                found = true;
                break;
            }
            cells = cells + 1;
            y = y - 1;
        }
        assert(f(x as int) == (if found { cells as int } else { 0 }));
        if found {
            assert(cells * cells <= 1600) by (nonlinear_arith)
                requires
                    0 <= cells <= 40,
            ;
            covered = covered + cells;
            covered_sq = covered_sq + cells * cells;
        }
        x = x + 1;
    }
    (covered, covered_sq)
}

/// Bit `k` of the transition mask of a packed row marks a change between cell `k - 1` and
/// cell `k`, walls counting as filled.
proof fn lemma_transition_bit(r: u16, k: u16)
    by (bit_vector)
    requires
        r < 1024,
        k < 16,
    ensures
        ((((r | 0b1_00000_00000u16) ^ (1u16 | (r << 1u16))) >> k) & 1u16 == 1u16) == ((k == 0
            && !((r >> 0u16) & 1u16 == 1u16)) || (1 <= k && k <= 9 && (((r >> k) & 1u16 == 1u16)
            != ((r >> ((k - 1) as u16)) & 1u16 == 1u16))) || (k == 10 && !((r >> 9u16) & 1u16
            == 1u16))),
{
}

/// The popcount of the transition mask of a packed row counts the row's transitions.
proof fn lemma_transition_count(r: u16, n: int)
    requires
        r < 1024,
        0 <= n <= 16,
    ensures
        popcount((r | 0b1_00000_00000u16) ^ (1u16 | (r << 1u16)), n) == sum_range(
            0,
            if n < 11 {
                n
            } else {
                11
            },
            |k: int| count(cell_or_wall(row_view(r), k) != cell_or_wall(row_view(r), k - 1)),
        ),
    decreases n,
{
    let f = |k: int| count(cell_or_wall(row_view(r), k) != cell_or_wall(row_view(r), k - 1));
    if n > 0 {
        lemma_transition_count(r, n - 1);
        let k = n - 1;
        let ku = k as u16;
        lemma_transition_bit(r, ku);
        assert(ku as int == k);
        if k <= 10 {
            if 1 <= k {
                assert(((ku - 1) as u16) as int == k - 1);
                assert(row_view(r)[k - 1] == r.filled(k - 1));
            }
            if k <= 9 {
                assert(row_view(r)[k] == r.filled(k));
            }
            assert(f(k) == (if (((r | 0b1_00000_00000u16) ^ (1u16 | (r << 1u16))) >> ku) & 1u16
                == 1u16 {
                1int
            } else {
                0
            }));
        }
    }
}

/// The number of changes between filled and empty cells along each of the forty rows, walls
/// counting as filled.
pub fn row_transitions(board: &Board) -> (n: i32)
    requires
        board.inv(),
    ensures
        n as int == sum_range(0, 40, |y: int| row_transitions_spec(board.grid()[y])),
        0 <= n <= 640,
{
    let ghost f = |y: int| row_transitions_spec(board.grid()[y]);
    let mut n: i32 = 0;
    let mut y: i32 = 0;
    while y < 40
        invariant
            board.inv(),
            0 <= y <= 40,
            f == (|yy: int| row_transitions_spec(board.grid()[yy])),
            n as int == sum_range(0, y as int, f),
            0 <= n <= 16 * y,
        decreases 40 - y,
    {
        let r = board.get_row(y);
        let d = (r | 0b1_00000_00000u16) ^ (1u16 | (r << 1u16));
        let c = count_ones(d);
        proof {
            lemma_popcount_bound(d, 16);
            lemma_transition_count(r, 16);
            board.lemma_inv();
            assert(board.grid()[y as int] == row_view(r));
        }
        n = n + c as i32;
        y = y + 1;
    }
    n
}

/// A popcount of `n` bits is at most `n`.
pub proof fn lemma_popcount_bound(v: u16, n: int)
    requires
        n >= 0,
    ensures
        0 <= popcount(v, n) <= n,
    decreases n,
{
    if n > 0 {
        lemma_popcount_bound(v, n - 1);
    }
}

} // verus!
