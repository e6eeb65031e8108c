use vstd::prelude::*;
use std::collections::VecDeque;
use crate::board::{Board, occ_grid};
use crate::evaluation::features::{hgt, count, lemma_board_heights};
use crate::evaluation::sum_range;

verus! {

/// The cell with index `i`, counting along the rows from the bottom left.
pub open spec fn cell_at(i: int) -> (int, int) {
    (i % 10, i / 10)
}

/// `(x, y)` lies on the playfield.
pub open spec fn in_field(x: int, y: int) -> bool {
    0 <= x < 10 && 0 <= y < 40
}

/// `(x, y)` is an empty cell of the playfield below the top of its column.
pub open spec fn is_hole(g: Seq<Seq<bool>>, x: int, y: int) -> bool {
    in_field(x, y) && !occ_grid(g, x, y) && y < hgt(g, x)
}

/// `(x, y)` is an empty cell of the playfield at or above the top of its column.
pub open spec fn is_open(g: Seq<Seq<bool>>, x: int, y: int) -> bool {
    in_field(x, y) && !occ_grid(g, x, y) && y >= hgt(g, x)
}

/// `c` can be reached from `s` in at most `n` steps between side-by-side hole cells.
pub open spec fn reach(g: Seq<Seq<bool>>, s: (int, int), c: (int, int), n: nat) -> bool
    decreases n,
{
    if n == 0 {
        c == s && is_hole(g, s.0, s.1)
    } else {
        reach(g, s, c, (n - 1) as nat) || (is_hole(g, c.0, c.1) && (reach(
            g,
            s,
            (c.0 - 1, c.1),
            (n - 1) as nat,
        ) || reach(g, s, (c.0 + 1, c.1), (n - 1) as nat) || reach(
            g,
            s,
            (c.0, c.1 - 1),
            (n - 1) as nat,
        ) || reach(g, s, (c.0, c.1 + 1), (n - 1) as nat)))
    }
}

/// `c` lies in the same region of hole cells as `s`.
pub open spec fn connected(g: Seq<Seq<bool>>, s: (int, int), c: (int, int)) -> bool {
    exists|n: nat| #[trigger] reach(g, s, c, n)
}

/// A side neighbour of `c` is open.
pub open spec fn open_neighbor(g: Seq<Seq<bool>>, c: (int, int)) -> bool {
    is_open(g, c.0 - 1, c.1) || is_open(g, c.0 + 1, c.1) || is_open(g, c.0, c.1 - 1) || is_open(
        g,
        c.0,
        c.1 + 1,
    )
}

/// The region of hole cells of `s` touches an open cell: it is an overhang rather than a
/// cavity.
pub open spec fn leaky(g: Seq<Seq<bool>>, s: (int, int)) -> bool {
    exists|c: (int, int)| #[trigger] connected(g, s, c) && open_neighbor(g, c)
}

/// The number of hole cells in regions closed off from the open air, and the number in regions
/// that touch it.
pub open spec fn region_counts(g: Seq<Seq<bool>>) -> (int, int) {
    (
        sum_range(
            0,
            400,
            |i: int| count(is_hole(g, cell_at(i).0, cell_at(i).1) && !leaky(g, cell_at(i))),
        ),
        sum_range(
            0,
            400,
            |i: int| count(is_hole(g, cell_at(i).0, cell_at(i).1) && leaky(g, cell_at(i))),
        ),
    )
}

/// Both ends of a path between holes are holes.
pub proof fn lemma_reach_holes(g: Seq<Seq<bool>>, s: (int, int), c: (int, int), n: nat)
    requires
        reach(g, s, c, n),
    ensures
        is_hole(g, s.0, s.1),
        is_hole(g, c.0, c.1),
    decreases n,
{
    if n > 0 {
        if reach(g, s, c, (n - 1) as nat) {
            lemma_reach_holes(g, s, c, (n - 1) as nat);
        } else if reach(g, s, (c.0 - 1, c.1), (n - 1) as nat) {
            lemma_reach_holes(g, s, (c.0 - 1, c.1), (n - 1) as nat);
        } else if reach(g, s, (c.0 + 1, c.1), (n - 1) as nat) {
            lemma_reach_holes(g, s, (c.0 + 1, c.1), (n - 1) as nat);
        } else if reach(g, s, (c.0, c.1 - 1), (n - 1) as nat) {
            lemma_reach_holes(g, s, (c.0, c.1 - 1), (n - 1) as nat);
        } else {
            lemma_reach_holes(g, s, (c.0, c.1 + 1), (n - 1) as nat);
        }
    }
}

/// More steps reach at least as far.
pub proof fn lemma_reach_mono(g: Seq<Seq<bool>>, s: (int, int), c: (int, int), n: nat, m: nat)
    requires
        reach(g, s, c, n),
        n <= m,
    ensures
        reach(g, s, c, m),
    decreases m - n,
{
    if n < m {
        lemma_reach_mono(g, s, c, n, (m - 1) as nat);
    }
}

/// One more step from `d` to a side-by-side hole `c`.
pub proof fn lemma_reach_step(g: Seq<Seq<bool>>, s: (int, int), d: (int, int), c: (int, int), n: nat)
    requires
        reach(g, s, d, n),
        is_hole(g, c.0, c.1),
        d == (c.0 - 1, c.1) || d == (c.0 + 1, c.1) || d == (c.0, c.1 - 1) || d == (c.0, c.1 + 1),
    ensures
        reach(g, s, c, n + 1),
{
}

/// Paths join up.
pub proof fn lemma_reach_trans(
    g: Seq<Seq<bool>>,
    s: (int, int),
    m: (int, int),
    c: (int, int),
    n1: nat,
    n2: nat,
)
    requires
        reach(g, s, m, n1),
        reach(g, m, c, n2),
    ensures
        reach(g, s, c, n1 + n2),
    decreases n2,
{
    if n2 == 0 {
    } else if reach(g, m, c, (n2 - 1) as nat) {
        lemma_reach_trans(g, s, m, c, n1, (n2 - 1) as nat);
        lemma_reach_mono(g, s, c, (n1 + n2 - 1) as nat, n1 + n2);
    } else {
        let d = if reach(g, m, (c.0 - 1, c.1), (n2 - 1) as nat) {
            (c.0 - 1, c.1)
        } else if reach(g, m, (c.0 + 1, c.1), (n2 - 1) as nat) {
            (c.0 + 1, c.1)
        } else if reach(g, m, (c.0, c.1 - 1), (n2 - 1) as nat) {
            (c.0, c.1 - 1)
        } else {
            (c.0, c.1 + 1)
        };
        lemma_reach_trans(g, s, m, d, n1, (n2 - 1) as nat);
        lemma_reach_step(g, s, d, c, (n1 + n2 - 1) as nat);
    }
}

/// Paths can be walked backwards.
pub proof fn lemma_reach_sym(g: Seq<Seq<bool>>, s: (int, int), c: (int, int), n: nat)
    requires
        reach(g, s, c, n),
    ensures
        reach(g, c, s, n),
    decreases n,
{
    if n == 0 {
    } else if reach(g, s, c, (n - 1) as nat) {
        lemma_reach_sym(g, s, c, (n - 1) as nat);
        lemma_reach_mono(g, c, s, (n - 1) as nat, n);
    } else {
        let d = if reach(g, s, (c.0 - 1, c.1), (n - 1) as nat) {
            (c.0 - 1, c.1)
        } else if reach(g, s, (c.0 + 1, c.1), (n - 1) as nat) {
            (c.0 + 1, c.1)
        } else if reach(g, s, (c.0, c.1 - 1), (n - 1) as nat) {
            (c.0, c.1 - 1)
        } else {
            (c.0, c.1 + 1)
        };
        lemma_reach_sym(g, s, d, (n - 1) as nat);
        lemma_reach_holes(g, s, d, (n - 1) as nat);
        assert(reach(g, c, c, 0));
        lemma_reach_step(g, c, c, d, 0);
        lemma_reach_trans(g, c, d, s, 1, (n - 1) as nat);
    }
}

/// Two cells of one region have the same leakiness.
pub proof fn lemma_leaky_region(g: Seq<Seq<bool>>, s: (int, int), c: (int, int))
    requires
        connected(g, s, c),
    ensures
        leaky(g, s) == leaky(g, c),
{
    let n = choose|n: nat| #[trigger] reach(g, s, c, n);
    lemma_reach_sym(g, s, c, n);
    if leaky(g, s) {
        let d = choose|d: (int, int)| #[trigger] connected(g, s, d) && open_neighbor(g, d);
        let k = choose|k: nat| #[trigger] reach(g, s, d, k);
        lemma_reach_trans(g, c, s, d, n, k);
        assert(connected(g, c, d));
    }
    if leaky(g, c) {
        let d = choose|d: (int, int)| #[trigger] connected(g, c, d) && open_neighbor(g, d);
        let k = choose|k: nat| #[trigger] reach(g, c, d, k);
        lemma_reach_trans(g, s, c, d, n, k);
        assert(connected(g, s, d));
    }
}

/// The index of cell `(x, y)`.
pub open spec fn index_of(x: int, y: int) -> int {
    y * 10 + x
}

/// Cell indices and positions correspond.
pub proof fn lemma_cell_index(x: int, y: int)
    requires
        in_field(x, y),
    ensures
        cell_at(index_of(x, y)) == (x, y),
        0 <= index_of(x, y) < 400,
{
    vstd::arithmetic::div_mod::lemma_fundamental_div_mod_converse(y * 10 + x, 10, y, x);
}

/// The cell of an index lies on the playfield and has that index.
pub proof fn lemma_index_cell(i: int)
    requires
        0 <= i < 400,
    ensures
        in_field(cell_at(i).0, cell_at(i).1),
        index_of(cell_at(i).0, cell_at(i).1) == i,
{
    vstd::arithmetic::div_mod::lemma_fundamental_div_mod(i, 10);
    assert(0 <= i % 10 < 10) by {
        vstd::arithmetic::div_mod::lemma_mod_pos_bound(i, 10);
    }
    assert(0 <= i / 10 < 40) by {
        vstd::arithmetic::div_mod::lemma_fundamental_div_mod(i, 10);
    }
}

/// Changing one term of a sum changes the sum by the same amount.
pub proof fn lemma_sum_range_update(
    lo: int,
    hi: int,
    f: spec_fn(int) -> int,
    g: spec_fn(int) -> int,
    k: int,
)
    requires
        lo <= k < hi,
        forall|i: int| lo <= i < hi && i != k ==> #[trigger] f(i) == g(i),
    ensures
        sum_range(lo, hi, g) == sum_range(lo, hi, f) + g(k) - f(k),
    decreases hi - lo,
{
    if hi - 1 == k {
        crate::evaluation::lemma_sum_range_ext(lo, hi - 1, f, g);
    } else {
        lemma_sum_range_update(lo, hi - 1, f, g, k);
    }
}

/// A hole at `(x, y)` is marked in `chk`.
pub open spec fn hole_marked(g: Seq<Seq<bool>>, chk: Seq<bool>, x: int, y: int) -> bool {
    is_hole(g, x, y) ==> chk[index_of(x, y)]
}

/// The marked cells are holes, and every hole next to a marked cell is marked: the marks cover
/// whole regions.
pub open spec fn closed_marks(g: Seq<Seq<bool>>, chk: Seq<bool>) -> bool {
    &&& chk.len() == 400
    &&& forall|i: int|
        0 <= i < 400 && #[trigger] chk[i] ==> {
            let c = cell_at(i);
            &&& is_hole(g, c.0, c.1)
            &&& hole_marked(g, chk, c.0 - 1, c.1)
            &&& hole_marked(g, chk, c.0 + 1, c.1)
            &&& hole_marked(g, chk, c.0, c.1 - 1)
            &&& hole_marked(g, chk, c.0, c.1 + 1)
        }
}

/// The number of marked cells whose leakiness is `flag`.
pub open spec fn marked_count(g: Seq<Seq<bool>>, chk: Seq<bool>, flag: bool) -> int {
    sum_range(0, 400, |i: int| count(chk[i] && leaky(g, cell_at(i)) == flag))
}

/// The number of marked cells.
pub open spec fn num_marked(chk: Seq<bool>) -> int {
    sum_range(0, 400, |i: int| count(chk[i]))
}

/// `c` waits in the queue `q`.
pub open spec fn queued(q: Seq<(i32, i32)>, c: (int, int)) -> bool {
    exists|k: int| 0 <= k < q.len() && (q[k].0 as int, q[k].1 as int) == c
}

/// The neighbour `c` of a newly marked cell is dealt with: still queued, or marked if it is a
/// hole and counted as a leak if it is open.
pub open spec fn frontier_ok(
    g: Seq<Seq<bool>>,
    q: Seq<(i32, i32)>,
    chk: Seq<bool>,
    leak: bool,
    c: (int, int),
) -> bool {
    queued(q, c) || (hole_marked(g, chk, c.0, c.1) && (is_open(g, c.0, c.1) ==> leak))
}

/// A region that contains no cell of a closed set of marks stays out of it.
proof fn lemma_closed_excludes(
    g: Seq<Seq<bool>>,
    chk: Seq<bool>,
    s: (int, int),
    c: (int, int),
    n: nat,
)
    requires
        closed_marks(g, chk),
        !chk[index_of(s.0, s.1)],
        reach(g, s, c, n),
    ensures
        !chk[index_of(c.0, c.1)],
    decreases n,
{
    lemma_reach_holes(g, s, c, n);
    if n > 0 && !reach(g, s, c, (n - 1) as nat) {
        let d = if reach(g, s, (c.0 - 1, c.1), (n - 1) as nat) {
            (c.0 - 1, c.1)
        } else if reach(g, s, (c.0 + 1, c.1), (n - 1) as nat) {
            (c.0 + 1, c.1)
        } else if reach(g, s, (c.0, c.1 - 1), (n - 1) as nat) {
            (c.0, c.1 - 1)
        } else {
            (c.0, c.1 + 1)
        };
        lemma_closed_excludes(g, chk, s, d, (n - 1) as nat);
        lemma_reach_holes(g, s, d, (n - 1) as nat);
        if chk[index_of(c.0, c.1)] {
            lemma_cell_index(c.0, c.1);
            lemma_cell_index(d.0, d.1);
            assert(hole_marked(g, chk, d.0, d.1));
        }
    } else if n > 0 {
        lemma_closed_excludes(g, chk, s, c, (n - 1) as nat);
    }
}

/// Every cell of the region of `s` is marked once the marks are closed and `s` is marked.
proof fn lemma_closed_includes(
    g: Seq<Seq<bool>>,
    chk: Seq<bool>,
    s: (int, int),
    c: (int, int),
    n: nat,
)
    requires
        closed_marks(g, chk),
        chk[index_of(s.0, s.1)],
        reach(g, s, c, n),
    ensures
        chk[index_of(c.0, c.1)],
    decreases n,
{
    if n > 0 && !reach(g, s, c, (n - 1) as nat) {
        let d = if reach(g, s, (c.0 - 1, c.1), (n - 1) as nat) {
            (c.0 - 1, c.1)
        } else if reach(g, s, (c.0 + 1, c.1), (n - 1) as nat) {
            (c.0 + 1, c.1)
        } else if reach(g, s, (c.0, c.1 - 1), (n - 1) as nat) {
            (c.0, c.1 - 1)
        } else {
            (c.0, c.1 + 1)
        };
        lemma_closed_includes(g, chk, s, d, (n - 1) as nat);
        lemma_reach_holes(g, s, d, (n - 1) as nat);
        lemma_cell_index(d.0, d.1);
        assert(hole_marked(g, chk, c.0, c.1));
    } else if n > 0 {
        lemma_closed_includes(g, chk, s, c, (n - 1) as nat);
    }
}

/// Marking one more cell adds one to the count of its leakiness and to the number of marks.
proof fn lemma_mark_counts(g: Seq<Seq<bool>>, chk: Seq<bool>, k: int)
    requires
        chk.len() == 400,
        0 <= k < 400,
        !chk[k],
    ensures
        marked_count(g, chk.update(k, true), leaky(g, cell_at(k))) == marked_count(
            g,
            chk,
            leaky(g, cell_at(k)),
        ) + 1,
        marked_count(g, chk.update(k, true), !leaky(g, cell_at(k))) == marked_count(
            g,
            chk,
            !leaky(g, cell_at(k)),
        ),
        num_marked(chk.update(k, true)) == num_marked(chk) + 1,
{
    let c2 = chk.update(k, true);
    let l = leaky(g, cell_at(k));
    lemma_sum_range_update(
        0,
        400,
        |i: int| count(chk[i] && leaky(g, cell_at(i)) == l),
        |i: int| count(c2[i] && leaky(g, cell_at(i)) == l),
        k,
    );
    lemma_sum_range_update(
        0,
        400,
        |i: int| count(chk[i] && leaky(g, cell_at(i)) == !l),
        |i: int| count(c2[i] && leaky(g, cell_at(i)) == !l),
        k,
    );
    lemma_sum_range_update(0, 400, |i: int| count(chk[i]), |i: int| count(c2[i]), k);
}

/// At most all four hundred cells are marked.
proof fn lemma_num_marked_bound(chk: Seq<bool>)
    ensures
        0 <= num_marked(chk) <= 400,
{
    crate::evaluation::lemma_sum_range_bounds(0, 400, |i: int| count(chk[i]), 0, 1);
}

/// A queued cell stays queued when another cell leaves the front of the queue.
proof fn lemma_queued_pop(q0: Seq<(i32, i32)>, c: (int, int))
    requires
        q0.len() > 0,
        queued(q0, c),
        (q0[0].0 as int, q0[0].1 as int) != c,
    ensures
        queued(q0.subrange(1, q0.len() as int), c),
{
    let k = choose|k: int| 0 <= k < q0.len() && (q0[k].0 as int, q0[k].1 as int) == c;
    assert(q0.subrange(1, q0.len() as int)[k - 1] == q0[k]);
}

/// A queued cell stays queued when another joins the back of the queue, which is queued too.
proof fn lemma_queued_push(q: Seq<(i32, i32)>, e: (i32, i32))
    ensures
        forall|c: (int, int)| queued(q, c) ==> queued(q.push(e), c),
        queued(q.push(e), (e.0 as int, e.1 as int)),
{
    assert forall|c: (int, int)| queued(q, c) implies queued(q.push(e), c) by {
        let k = choose|k: int| 0 <= k < q.len() && (q[k].0 as int, q[k].1 as int) == c;
        assert(q.push(e)[k] == q[k]);
    }
    assert(q.push(e)[q.len() as int] == e);
}

/// Fills the region of hole cells that contains `(x0, y0)`, marking it in `checked`; gives its
/// size and whether it touches an open cell.
fn fill_region(board: &Board, checked: &mut Vec<bool>, x0: i32, y0: i32) -> (r: (i32, bool))
    requires
        board.wf(),
        closed_marks(board.grid(), old(checked)@),
        is_hole(board.grid(), x0 as int, y0 as int),
        !old(checked)@[index_of(x0 as int, y0 as int)],
    ensures
        closed_marks(board.grid(), final(checked)@),
        forall|i: int|
            0 <= i < 400 ==> #[trigger] final(checked)@[i] == (old(checked)@[i] || connected(
                board.grid(),
                (x0 as int, y0 as int),
                cell_at(i),
            )),
        r.1 == leaky(board.grid(), (x0 as int, y0 as int)),
        marked_count(board.grid(), final(checked)@, r.1) == marked_count(
            board.grid(),
            old(checked)@,
            r.1,
        ) + r.0,
        marked_count(board.grid(), final(checked)@, !r.1) == marked_count(
            board.grid(),
            old(checked)@,
            !r.1,
        ),
        0 <= r.0 <= 400,
{
    proof {
        lemma_board_heights(board);
        board.lemma_inv();
    }
    let ghost g = board.grid();
    let ghost s = (x0 as int, y0 as int);
    let ghost ls = leaky(g, s);
    let ghost old_chk = checked@;
    let heights = board.column_heights();
    let mut q: VecDeque<(i32, i32)> = VecDeque::new();
    q.push_back((x0, y0));
    let mut size: i32 = 0;
    let mut leak = false;
    proof {
        assert(reach(g, s, s, 0));
        assert(connected(g, s, s));
        assert(q@[0] == (x0, y0));
        lemma_num_marked_bound(old_chk);
    }
    while q.len() > 0
        invariant
            board.wf(),
            g == board.grid(),
            forall|c: int| 0 <= c < 10 ==> #[trigger] heights@[c] as int == hgt(g, c),
            closed_marks(g, old_chk),
            is_hole(g, s.0, s.1),
            !old_chk[index_of(s.0, s.1)],
            checked@.len() == 400,
            forall|i: int| 0 <= i < 400 && old_chk[i] ==> #[trigger] checked@[i],
            forall|i: int|
                0 <= i < 400 && #[trigger] checked@[i] ==> is_hole(g, cell_at(i).0, cell_at(i).1),
            forall|i: int|
                0 <= i < 400 && #[trigger] checked@[i] && !old_chk[i] ==> connected(
                    g,
                    s,
                    cell_at(i),
                ),
            forall|i: int|
                0 <= i < 400 && #[trigger] checked@[i] && !old_chk[i] ==> {
                    let c = cell_at(i);
                    &&& frontier_ok(g, q@, checked@, leak, (c.0 - 1, c.1))
                    &&& frontier_ok(g, q@, checked@, leak, (c.0 + 1, c.1))
                    &&& frontier_ok(g, q@, checked@, leak, (c.0, c.1 - 1))
                    &&& frontier_ok(g, q@, checked@, leak, (c.0, c.1 + 1))
                },
            forall|k: int|
                0 <= k < q@.len() ==> {
                    let c = (#[trigger] q@[k]);
                    &&& -1 <= c.0 <= 10
                    &&& -1 <= c.1 <= 40
                    &&& is_hole(g, c.0 as int, c.1 as int) ==> connected(
                        g,
                        s,
                        (c.0 as int, c.1 as int),
                    )
                    &&& is_open(g, c.0 as int, c.1 as int) ==> ls
                },
            queued(q@, s) || checked@[index_of(s.0, s.1)],
            leak ==> ls,
            ls == leaky(g, s),
            marked_count(g, checked@, ls) == marked_count(g, old_chk, ls) + size,
            marked_count(g, checked@, !ls) == marked_count(g, old_chk, !ls),
            num_marked(checked@) == num_marked(old_chk) + size,
            0 <= num_marked(old_chk) <= 400,
            0 <= size,
        decreases 400 - num_marked(checked@), q@.len(),
    {
        let ghost q0 = q@;
        let ghost chk0 = checked@;
        let ghost leak0 = leak;
        let (x, y) = q.pop_front().unwrap();
        let ghost c = (x as int, y as int);
        proof {
            lemma_num_marked_bound(checked@);
            assert(q0[0] == (x, y));
            assert forall|d: (int, int)| queued(q0, d) && d != c implies queued(q@, d) by {
                lemma_queued_pop(q0, d);
            }
        }
        let mut marked = false;
        if x < 0 || y < 0 || x >= 10 || y >= 40 {
        } else {
            let idx = (y * 10 + x) as usize;
            proof {
                lemma_cell_index(c.0, c.1);
            }
            if board.occupied(x, y) || checked[idx] {
            } else if y >= heights[x as usize] {
                leak = true;
            } else {
                checked[idx] = true;
                proof {
                    lemma_mark_counts(g, chk0, idx as int);
                    let n = choose|n: nat| #[trigger] reach(g, s, c, n);
                    lemma_leaky_region(g, s, c);
                    assert forall|d: (int, int)|
                        d == (c.0 - 1, c.1) || d == (c.0 + 1, c.1) || d == (c.0, c.1 - 1) || d == (
                            c.0,
                            c.1 + 1,
                        ) implies (is_hole(g, d.0, d.1) ==> connected(g, s, d)) && (is_open(
                        g,
                        d.0,
                        d.1,
                    ) ==> ls) by {
                        if is_hole(g, d.0, d.1) {
                            lemma_reach_step(g, s, c, d, n);
                            assert(reach(g, s, d, n + 1));
                        }
                        if is_open(g, d.0, d.1) {
                            assert(open_neighbor(g, c));
                            assert(connected(g, s, c) && open_neighbor(g, c));
                        }
                    }
                }
                size = size + 1;
                let ghost q1 = q@;
                q.push_back((x - 1, y));
                proof {
                    lemma_queued_push(q1, ((x - 1) as i32, y));
                }
                let ghost q2 = q@;
                q.push_back((x, y - 1));
                proof {
                    lemma_queued_push(q2, (x, (y - 1) as i32));
                }
                let ghost q3 = q@;
                q.push_back((x + 1, y));
                proof {
                    lemma_queued_push(q3, ((x + 1) as i32, y));
                }
                let ghost q4 = q@;
                q.push_back((x, y + 1));
                proof {
                    lemma_queued_push(q4, (x, (y + 1) as i32));
                }
                marked = true;
            }
        }
        proof {
            lemma_num_marked_bound(checked@);
            if !marked {
                assert(checked@ == chk0);
            }
            assert(!is_hole(g, c.0, c.1) || checked@[index_of(c.0, c.1)]);
            assert(is_open(g, c.0, c.1) ==> leak);
            assert forall|d: (int, int)| queued(q0, d) implies frontier_ok(
                g,
                q@,
                checked@,
                leak,
                d,
            ) by {
                if d != c {
                    assert(queued(q@, d)) by {
                        if marked {
                            assert(queued(q0.subrange(1, q0.len() as int), d));
                        }
                    }
                }
            }
        }
    }
    proof {
        let fin = checked@;
        assert forall|d: (int, int)| !queued(q@, d) by {}
        assert(fin[index_of(s.0, s.1)]);
        assert forall|i: int| 0 <= i < 400 && #[trigger] fin[i] implies {
            let c = cell_at(i);
            &&& is_hole(g, c.0, c.1)
            &&& hole_marked(g, fin, c.0 - 1, c.1)
            &&& hole_marked(g, fin, c.0 + 1, c.1)
            &&& hole_marked(g, fin, c.0, c.1 - 1)
            &&& hole_marked(g, fin, c.0, c.1 + 1)
        } by {
            let c = cell_at(i);
            if old_chk[i] {
                assert forall|d: (int, int)| hole_marked(g, old_chk, d.0, d.1) && is_hole(
                    g,
                    d.0,
                    d.1,
                ) implies fin[index_of(d.0, d.1)] by {
                    lemma_cell_index(d.0, d.1);
                }
                assert(hole_marked(g, old_chk, c.0 - 1, c.1));
                assert(hole_marked(g, old_chk, c.0 + 1, c.1));
                assert(hole_marked(g, old_chk, c.0, c.1 - 1));
                assert(hole_marked(g, old_chk, c.0, c.1 + 1));
            } else {
                assert(frontier_ok(g, q@, fin, leak, (c.0 - 1, c.1)));
                assert(frontier_ok(g, q@, fin, leak, (c.0 + 1, c.1)));
                assert(frontier_ok(g, q@, fin, leak, (c.0, c.1 - 1)));
                assert(frontier_ok(g, q@, fin, leak, (c.0, c.1 + 1)));
            }
        }
        assert(closed_marks(g, fin));
        assert forall|i: int| 0 <= i < 400 implies #[trigger] fin[i] == (old_chk[i] || connected(
            g,
            s,
            cell_at(i),
        )) by {
            if connected(g, s, cell_at(i)) {
                let n = choose|n: nat| #[trigger] reach(g, s, cell_at(i), n);
                lemma_closed_includes(g, fin, s, cell_at(i), n);
                lemma_index_cell(i);
            }
        }
        if ls {
            let d = choose|d: (int, int)| #[trigger] connected(g, s, d) && open_neighbor(g, d);
            let n = choose|n: nat| #[trigger] reach(g, s, d, n);
            lemma_closed_includes(g, fin, s, d, n);
            lemma_closed_excludes(g, old_chk, s, d, n);
            lemma_reach_holes(g, s, d, n);
            lemma_cell_index(d.0, d.1);
            let i = index_of(d.0, d.1);
            assert(fin[i] && !old_chk[i]);
            assert(frontier_ok(g, q@, fin, leak, (d.0 - 1, d.1)));
            assert(frontier_ok(g, q@, fin, leak, (d.0 + 1, d.1)));
            assert(frontier_ok(g, q@, fin, leak, (d.0, d.1 - 1)));
            assert(frontier_ok(g, q@, fin, leak, (d.0, d.1 + 1)));
        }
        lemma_num_marked_bound(fin);
    }
    (size, leak)
}

/// The marks split by leakiness add up to all the marks.
proof fn lemma_marked_split(g: Seq<Seq<bool>>, chk: Seq<bool>, lo: int, hi: int)
    requires
        lo <= hi,
    ensures
        sum_range(lo, hi, |i: int| count(chk[i] && leaky(g, cell_at(i)) == false)) + sum_range(
            lo,
            hi,
            |i: int| count(chk[i] && leaky(g, cell_at(i)) == true),
        ) == sum_range(lo, hi, |i: int| count(chk[i])),
        0 <= sum_range(lo, hi, |i: int| count(chk[i] && leaky(g, cell_at(i)) == false)),
        0 <= sum_range(lo, hi, |i: int| count(chk[i] && leaky(g, cell_at(i)) == true)),
    decreases hi - lo,
{
    if hi > lo {
        lemma_marked_split(g, chk, lo, hi - 1);
    }
}

/// Every hole cell counts exactly once: as part of a cavity or of an overhang.
pub proof fn lemma_regions_partition_holes(g: Seq<Seq<bool>>)
    ensures
        region_counts(g).0 + region_counts(g).1 == sum_range(
            0,
            400,
            |i: int| count(is_hole(g, cell_at(i).0, cell_at(i).1)),
        ),
{
    lemma_partition_prefix(g, 400);
}

proof fn lemma_partition_prefix(g: Seq<Seq<bool>>, n: int)
    requires
        0 <= n,
    ensures
        sum_range(
            0,
            n,
            |i: int| count(is_hole(g, cell_at(i).0, cell_at(i).1) && !leaky(g, cell_at(i))),
        ) + sum_range(
            0,
            n,
            |i: int| count(is_hole(g, cell_at(i).0, cell_at(i).1) && leaky(g, cell_at(i))),
        ) == sum_range(0, n, |i: int| count(is_hole(g, cell_at(i).0, cell_at(i).1))),
    decreases n,
{
    if n > 0 {
        lemma_partition_prefix(g, n - 1);
    }
}

/// Finds the regions of hole cells and counts their cells: those of regions closed off from
/// the open air (cavities) and those of regions that touch it (overhangs).
pub fn cavities_and_overhangs(board: &Board) -> (r: (i32, i32))
    requires
        board.wf(),
    ensures
        r.0 as int == region_counts(board.grid()).0,
        r.1 as int == region_counts(board.grid()).1,
        0 <= r.0,
        0 <= r.1,
        r.0 + r.1 <= 400,
{
    proof {
        lemma_board_heights(board);
        board.lemma_inv();
    }
    let ghost g = board.grid();
    let heights = board.column_heights();
    let mut checked: Vec<bool> = vec![false; 400];
    let mut cavity_cells: i32 = 0;
    let mut overhang_cells: i32 = 0;
    proof {
        assert forall|i: int| 0 <= i < 400 implies !#[trigger] checked@[i] by {}
        crate::evaluation::lemma_sum_range_ext(
            0,
            400,
            |i: int| count(checked@[i] && leaky(g, cell_at(i)) == false),
            |i: int| 0int,
        );
        crate::evaluation::lemma_sum_range_ext(
            0,
            400,
            |i: int| count(checked@[i] && leaky(g, cell_at(i)) == true),
            |i: int| 0int,
        );
        crate::evaluation::lemma_sum_range_bounds(0, 400, |i: int| 0int, 0, 0);
    }
    let mut i: usize = 0;
    while i < 400
        invariant
            i <= 400,
            board.wf(),
            g == board.grid(),
            forall|c: int| 0 <= c < 10 ==> #[trigger] heights@[c] as int == hgt(g, c),
            closed_marks(g, checked@),
            forall|j: int|
                0 <= j < i && is_hole(g, cell_at(j).0, cell_at(j).1) ==> #[trigger] checked@[j],
            cavity_cells as int == marked_count(g, checked@, false),
            overhang_cells as int == marked_count(g, checked@, true),
        decreases 400 - i,
    {
        let x = (i % 10) as i32;
        let y = (i / 10) as i32;
        proof {
            lemma_index_cell(i as int);
            lemma_cell_index(x as int, y as int);
        }
        if board.occupied(x, y) || checked[i] || y >= heights[x as usize] {
        } else {
            let ghost before = checked@;
            let (size, leak) = fill_region(board, &mut checked, x, y);
            proof {
                assert(reach(g, (x as int, y as int), (x as int, y as int), 0));
                assert(connected(g, (x as int, y as int), cell_at(i as int)));
                lemma_marked_split(g, checked@, 0, 400);
                lemma_num_marked_bound(checked@);
            }
            if leak {
                overhang_cells = overhang_cells + size;
            } else {
                cavity_cells = cavity_cells + size;
            }
        }
        i = i + 1;
    }
    proof {
        assert forall|j: int| 0 <= j < 400 implies #[trigger] checked@[j] == is_hole(
            g,
            cell_at(j).0,
            cell_at(j).1,
        ) by {}
        crate::evaluation::lemma_sum_range_ext(
            0,
            400,
            |j: int| count(checked@[j] && leaky(g, cell_at(j)) == false),
            |j: int| count(is_hole(g, cell_at(j).0, cell_at(j).1) && !leaky(g, cell_at(j))),
        );
        crate::evaluation::lemma_sum_range_ext(
            0,
            400,
            |j: int| count(checked@[j] && leaky(g, cell_at(j)) == true),
            |j: int| count(is_hole(g, cell_at(j).0, cell_at(j).1) && leaky(g, cell_at(j))),
        );
        lemma_marked_split(g, checked@, 0, 400);
        lemma_num_marked_bound(checked@);
    }
    (cavity_cells, overhang_cells)
}

} // verus!