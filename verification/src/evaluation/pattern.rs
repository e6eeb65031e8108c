use vstd::prelude::*;
use crate::board::{Board, occ_grid};
use crate::evaluation::sum_range;
use crate::evaluation::naive::{outside_full, outside_full_exec};
use crate::evaluation::weighted::{Evaluation, PlacementWeights};
use crate::evaluation::standard::small;
use crate::piece::LockResult;
use crate::row::Row;

verus! {

/// A table of 4096 weights, one per 3x3 neighbourhood with its three row flags.
#[derive(Copy, Clone)]
pub struct Array4096(pub [i32; 4096]);

/// A table of 1024 weights, one per row.
#[derive(Copy, Clone)]
pub struct Array1024(pub [i32; 1024]);

impl From<[i32; 4096]> for Array4096 {
    fn from(v: [i32; 4096]) -> (a: Array4096) {
        Array4096(v)
    }
}

impl vstd::std_specs::convert::FromSpecImpl<[i32; 4096]> for Array4096 {
    open spec fn obeys_from_spec() -> bool {
        true
    }

    open spec fn from_spec(v: [i32; 4096]) -> Array4096 {
        Array4096(v)
    }
}

impl From<[i32; 1024]> for Array1024 {
    fn from(v: [i32; 1024]) -> (a: Array1024) {
        Array1024(v)
    }
}

impl vstd::std_specs::convert::FromSpecImpl<[i32; 1024]> for Array1024 {
    open spec fn obeys_from_spec() -> bool {
        true
    }

    open spec fn from_spec(v: [i32; 1024]) -> Array1024 {
        Array1024(v)
    }
}

/// The weights of an evaluator that scores every 3x3 neighbourhood of the board, by how often
/// it has been seen, and every row.
#[derive(Copy, Clone)]
pub struct PatternEvaluator {
    pub back_to_back: i32,
    pub thresholds: Array4096,
    pub below_values: Array4096,
    pub above_values: Array4096,
    pub rows: Array1024,
    pub b2b_clear: i32,
    pub clear1: i32,
    pub clear2: i32,
    pub clear3: i32,
    pub clear4: i32,
    pub tspin1: i32,
    pub tspin2: i32,
    pub tspin3: i32,
    pub mini_tspin1: i32,
    pub mini_tspin2: i32,
    pub perfect_clear: i32,
    pub combo_table: [i32; 12],
    pub soft_drop: i32,
}

/// `1` when cell `(x, y)` is filled or off the playfield, `0` otherwise.
pub open spec fn bit_at(g: Seq<Seq<bool>>, x: int, y: int) -> int {
    if occ_grid(g, x, y) {
        1
    } else {
        0
    }
}

/// `1` when `c` holds, `0` otherwise.
pub open spec fn flag(c: bool) -> int {
    if c {
        1
    } else {
        0
    }
}

/// The pattern of the neighbourhood centered on `(x, y)`: its nine cells read row by row from
/// the bottom left as the high bits, then whether each of its three rows is filled outside it.
pub open spec fn pattern_index(g: Seq<Seq<bool>>, x: int, y: int) -> int {
    cells_index(g, x, y) * 8 + flag(outside_full(g, x, y - 1)) * 4 + flag(outside_full(g, x, y))
        * 2 + flag(outside_full(g, x, y + 1))
}

/// The nine cells of the neighbourhood centered on `(x, y)`, read row by row from the bottom
/// left as the bits of a number, the first one highest.
pub open spec fn cells_index(g: Seq<Seq<bool>>, x: int, y: int) -> int {
    row_bits(g, x, y - 1) * 64 + row_bits(g, x, y) * 8 + row_bits(g, x, y + 1)
}

/// The three cells of row `y` around column `x`, read from the left as the bits of a number.
pub open spec fn row_bits(g: Seq<Seq<bool>>, x: int, y: int) -> int {
    bit_at(g, x - 1, y) * 4 + bit_at(g, x, y) * 2 + bit_at(g, x + 1, y)
}

/// The `k`-th neighbourhood the evaluator looks at: rows `-1..20` from the bottom, columns
/// `-1..11` from the left.
pub open spec fn window(k: int) -> (int, int) {
    (k % 12 - 1, k / 12 - 1)
}

/// The pattern of the `k`-th neighbourhood.
pub open spec fn pattern_at(g: Seq<Seq<bool>>, k: int) -> int {
    pattern_index(g, window(k).0, window(k).1)
}

/// How many of the first `k` neighbourhoods have pattern `i`.
pub open spec fn seen(g: Seq<Seq<bool>>, k: int, i: int) -> int
    decreases k,
{
    if k <= 0 {
        0
    } else {
        seen(g, k - 1, i) + flag(pattern_at(g, k - 1) == i)
    }
}

impl PatternEvaluator {
    /// The placement weights among these weights.
    pub open spec fn placement_weights(&self) -> PlacementWeights {
        PlacementWeights {
            b2b_clear: self.b2b_clear,
            clear1: self.clear1,
            clear2: self.clear2,
            clear3: self.clear3,
            clear4: self.clear4,
            tspin1: self.tspin1,
            tspin2: self.tspin2,
            tspin3: self.tspin3,
            mini_tspin1: self.mini_tspin1,
            mini_tspin2: self.mini_tspin2,
            perfect_clear: self.perfect_clear,
            combo_table: self.combo_table,
            soft_drop: self.soft_drop,
        }
    }

    /// The score of the `k`-th neighbourhood: its below-threshold value while its pattern has
    /// been seen fewer times than its threshold, its above-threshold value after.
    pub open spec fn window_score(&self, g: Seq<Seq<bool>>, k: int) -> int {
        let i = pattern_at(g, k);
        if seen(g, k, i) < self.thresholds.0@[i] {
            self.below_values.0@[i] as int
        } else {
            self.above_values.0@[i] as int
        }
    }

    /// What the board is worth: back-to-back, the scores of its neighbourhoods and of its
    /// twenty lowest rows.
    pub open spec fn transient_value(&self, board: &Board) -> int {
        let g = board.grid();
        (if board.b2b_of() {
            self.back_to_back as int
        } else {
            0
        }) + sum_range(0, 252, |k: int| self.window_score(g, k)) + sum_range(
            0,
            20,
            |y: int| self.rows.0@[board.rows()[y] as int] as int,
        )
    }

    /// Every weight is small enough for the evaluation not to overflow `i32`.
    pub open spec fn in_range(&self) -> bool {
        &&& self.placement_weights().in_range()
        &&& small(self.back_to_back)
        &&& forall|i: int|
            0 <= i < 4096 ==> -4_000_000 <= #[trigger] self.below_values.0@[i] <= 4_000_000
        &&& forall|i: int|
            0 <= i < 4096 ==> -4_000_000 <= #[trigger] self.above_values.0@[i] <= 4_000_000
        &&& forall|i: int| 0 <= i < 1024 ==> -4_000_000 <= #[trigger] self.rows.0@[i] <= 4_000_000
    }
}

/// The `k`-th neighbourhood is centered on `(x, y)`.
proof fn lemma_window(x: int, y: int)
    requires
        -1 <= x < 11,
        -1 <= y < 20,
    ensures
        window((y + 1) * 12 + (x + 1)) == (x, y),
{
    vstd::arithmetic::div_mod::lemma_fundamental_div_mod_converse(
        (y + 1) * 12 + (x + 1),
        12,
        y + 1,
        x + 1,
    );
}

/// A pattern is seen at most as often as neighbourhoods were looked at.
proof fn lemma_seen_bound(g: Seq<Seq<bool>>, k: int, i: int)
    requires
        k >= 0,
    ensures
        0 <= seen(g, k, i) <= k,
    decreases k,
{
    if k > 0 {
        lemma_seen_bound(g, k - 1, i);
    }
}

/// `1` when `b` holds, `0` otherwise.
fn bit(b: bool) -> (v: usize)
    ensures
        v as int == flag(b),
{
    if b {
        1
    } else {
        0
    }
}

/// Extends `i` by the three cells of row `y` around column `x`.
fn push_row(board: &Board, i: usize, x: i32, y: i32) -> (r: usize)
    requires
        board.inv(),
        -1 <= x <= 10,
        -2 <= y <= 21,
        i < 64,
    ensures
        r as int == i * 8 + row_bits(board.grid(), x as int, y as int),
        r < i * 8 + 8,
{
    let i = i * 2 + bit(board.occupied(x - 1, y));
    let i = i * 2 + bit(board.occupied(x, y));
    i * 2 + bit(board.occupied(x + 1, y))
}

/// The pattern of the neighbourhood centered on `(x, y)`.
fn pattern_of(board: &Board, x: i32, y: i32) -> (i: usize)
    requires
        board.inv(),
        -1 <= x <= 10,
        -1 <= y <= 20,
    ensures
        i as int == pattern_index(board.grid(), x as int, y as int),
        i < 4096,
{
    let i = push_row(board, 0, x, y - 1);
    let i = push_row(board, i, x, y);
    let i = push_row(board, i, x, y + 1);
    assert(i as int == cells_index(board.grid(), x as int, y as int));
    let i = i * 2 + bit(outside_full_exec(board, x, y - 1));
    let i = i * 2 + bit(outside_full_exec(board, x, y));
    i * 2 + bit(outside_full_exec(board, x, y + 1))
}

impl PatternEvaluator {
    /// The scores of the neighbourhoods, each counted against how often its pattern was seen.
    fn pattern_score(&self, board: &Board) -> (v: i32)
        requires
            self.in_range(),
            board.inv(),
        ensures
            v as int == sum_range(0, 252, |k: int| self.window_score(board.grid(), k)),
            -252 * 4_000_000 <= v <= 252 * 4_000_000,
    {
        let ghost g = board.grid();
        let ghost f = |k: int| self.window_score(g, k);
        let mut patterns: Vec<i32> = vec![0; 4096];
        let mut v: i32 = 0;
        let mut y: i32 = -1;
        while y < 20
            invariant
                board.inv(),
                self.in_range(),
                g == board.grid(),
                f == (|k: int| self.window_score(g, k)),
                -1 <= y <= 20,
                patterns@.len() == 4096,
                forall|i: int| 0 <= i < 4096 ==> #[trigger] patterns@[i] == seen(g, (y + 1) * 12, i),
                v as int == sum_range(0, (y + 1) * 12, f),
                -4_000_000 * ((y + 1) * 12) <= v <= 4_000_000 * ((y + 1) * 12),
            decreases 20 - y,
        {
            let mut x: i32 = -1;
            while x < 11
                invariant
                    board.inv(),
                    self.in_range(),
                    g == board.grid(),
                    f == (|k: int| self.window_score(g, k)),
                    -1 <= y < 20,
                    -1 <= x <= 11,
                    patterns@.len() == 4096,
                    forall|i: int|
                        0 <= i < 4096 ==> #[trigger] patterns@[i] == seen(
                            g,
                            (y + 1) * 12 + (x + 1),
                            i,
                        ),
                    v as int == sum_range(0, (y + 1) * 12 + (x + 1), f),
                    -4_000_000 * ((y + 1) * 12 + (x + 1)) <= v <= 4_000_000 * ((y + 1) * 12 + (x
                        + 1)),
                decreases 11 - x,
            {
                let ghost k = (y + 1) * 12 + (x + 1);
                proof {
                    lemma_window(x as int, y as int);
                }
                let i = pattern_of(board, x, y);
                assert(i as int == pattern_at(g, k));
                proof {
                    lemma_seen_bound(g, k, i as int);
                }
                let score = if patterns[i] < self.thresholds.0[i] {
                    self.below_values.0[i]
                } else {
                    self.above_values.0[i]
                };
                assert(score as int == f(k));
                v = v + score;
                let ghost before = patterns@;
                patterns[i] = patterns[i] + 1;
                proof {
                    assert forall|j: int| 0 <= j < 4096 implies #[trigger] patterns@[j] == seen(
                        g,
                        k + 1,
                        j,
                    ) by {
                        assert(seen(g, k + 1, j) == seen(g, k, j) + flag(pattern_at(g, k) == j));
                    }
                }
                x = x + 1;
            }
            y = y + 1;
        }
        v
    }

    /// Evaluates a placement: what it earned, as `PlacementWeights::value` describes, and what
    /// the board it leaves is worth (`transient_value`).
    pub fn evaluate(&mut self, lock: &LockResult, board: &Board, soft_dropped: bool) -> (e:
        Evaluation)
        requires
            old(self).in_range(),
            board.wf(),
        ensures
            *final(self) == *old(self),
            e.accumulated as int == old(self).placement_weights().value(*lock, soft_dropped),
            e.transient as int == old(self).transient_value(board),
    {
        let pw = PlacementWeights {
            b2b_clear: self.b2b_clear,
            clear1: self.clear1,
            clear2: self.clear2,
            clear3: self.clear3,
            clear4: self.clear4,
            tspin1: self.tspin1,
            tspin2: self.tspin2,
            tspin3: self.tspin3,
            mini_tspin1: self.mini_tspin1,
            mini_tspin2: self.mini_tspin2,
            perfect_clear: self.perfect_clear,
            combo_table: self.combo_table,
            soft_drop: self.soft_drop,
        };
        let acc_eval = pw.placement_value(lock, soft_dropped);
        let mut transient_eval: i32 = 0;
        if board.has_back_to_back_active() {
            transient_eval = self.back_to_back;
        }
        let patterns = self.pattern_score(board);
        transient_eval = transient_eval + patterns;
        let ghost rf = |y: int| self.rows.0@[board.rows()[y] as int] as int;
        let mut rows_sum: i32 = 0;
        let mut y: i32 = 0;
        while y < 20
            invariant
                board.wf(),
                self.in_range(),
                0 <= y <= 20,
                rf == (|yy: int| self.rows.0@[board.rows()[yy] as int] as int),
                rows_sum as int == sum_range(0, y as int, rf),
                -4_000_000 * y <= rows_sum <= 4_000_000 * y,
            decreases 20 - y,
        {
            let r = board.get_row(y);
            assert(r < 1024);
            rows_sum = rows_sum + self.rows.0[r as usize];
            y = y + 1;
        }
        Evaluation { accumulated: acc_eval, transient: transient_eval + rows_sum }
    }
}

} // verus!
