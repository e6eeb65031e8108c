use vstd::prelude::*;
use crate::board::{Board, collides_g, drop_to_g, occ_grid};
use crate::rotation::{apply_spec, kicked, near_field, spin_status, turn_from};
use crate::piece::{FallingPiece, Piece, PieceMovement, PieceState, RotationState, TspinStatus};
use crate::row::Row;

verus! {

/// How the pieces may move on their way down.
#[derive(Copy, Clone, Debug, PartialEq, Eq, Hash, Structural)]
pub enum MovementMode {
    /// No gravity: every reachable position counts.
    ZeroG,
    /// No gravity, also trying the positions reached by soft drops at every step.
    ZeroGComplete,
    /// Pieces fall to the bottom at once.
    TwentyG,
    /// Pieces can only be hard dropped from where they spawn.
    HardDropOnly,
}

/// The inputs that bring a piece to a placement, and the frames they take.
#[derive(Clone, Debug, PartialEq, Eq, Hash)]
pub struct InputList {
    pub movements: Vec<PieceMovement>,
    pub time: u32,
}

/// A placement that the movement search found, with the inputs that reach it.
#[derive(Clone, Debug, PartialEq, Eq, Hash)]
pub struct Placement {
    pub inputs: InputList,
    pub location: FallingPiece,
}

/// A move to play: the inputs, where the piece is expected to lock, and whether it holds first.
#[derive(Clone, Debug, PartialEq, Eq, Hash)]
pub struct Move {
    pub inputs: Vec<PieceMovement>,
    pub expected_location: FallingPiece,
    pub hold: bool,
}

/// Where a new piece appears.
#[derive(Copy, Clone, Debug, PartialEq, Eq, Hash, Structural)]
pub enum SpawnRule {
    /// In row 19, or in row 20 when row 19 is blocked.
    Row19Or20,
    /// In row 21, falling one row at once where it can.
    Row21AndFall,
}

/// Piece `kind`, pointing north, with its center in column 4 of row `y`.
pub open spec fn spawn_at(kind: Piece, y: i32) -> FallingPiece {
    FallingPiece { kind: PieceState(kind, RotationState::North), x: 4, y, tspin: TspinStatus::NoSpin }
}

/// A piece is blocked where it stands exactly when it collides without moving.
pub(crate) proof fn lemma_blocked<R: Row>(board: Board<R>, p: FallingPiece)
    ensures
        board.collides(p, 0, 0) == (exists|i: int| 0 <= i < 4 && board.occ(p.cell(i).0, p.cell(i).1)),
{
    if exists|i: int| 0 <= i < 4 && board.occ(p.cell(i).0, p.cell(i).1) {
        let i = choose|i: int| 0 <= i < 4 && board.occ(p.cell(i).0, p.cell(i).1);
        assert(crate::board::occ_grid(board.grid(), p.cell(i).0 + 0, p.cell(i).1 + 0));
    }
    if board.collides(p, 0, 0) {
        let i = choose|i: int| 0 <= i < 4 && #[trigger] crate::board::occ_grid(board.grid(), p.cell(i).0 + 0, p.cell(i).1 + 0);
        assert(board.occ(p.cell(i).0, p.cell(i).1));
    }
}

impl SpawnRule {
    /// Where piece `kind` appears on `board`, or `None` when it is blocked there.
    pub open spec fn spawn_spec<R: Row>(self, kind: Piece, board: Board<R>) -> Option<FallingPiece> {
        match self {
            SpawnRule::Row19Or20 => if !board.collides(spawn_at(kind, 19), 0, 0) {
                Some(spawn_at(kind, 19))
            } else if !board.collides(spawn_at(kind, 20), 0, 0) {
                Some(spawn_at(kind, 20))
            } else {
                None
            },
            SpawnRule::Row21AndFall => if board.collides(spawn_at(kind, 21), 0, 0) {
                None
            } else if !board.collides(spawn_at(kind, 21), 0, -1) {
                Some(spawn_at(kind, 20))
            } else {
                Some(spawn_at(kind, 21))
            },
        }
    }

    /// Places piece `kind` on `board` by this rule: `None` when it is blocked.
    pub fn spawn<R: Row>(self, kind: Piece, board: &Board<R>) -> (r: Option<FallingPiece>)
        requires
            board.inv(),
        ensures
            r == self.spawn_spec(kind, *board),
    {
        match self {
            SpawnRule::Row19Or20 => {
                let mut spawned = FallingPiece {
                    kind: PieceState(kind, RotationState::North),
                    x: 4,
                    y: 19,
                    tspin: TspinStatus::NoSpin,
                };
                proof {
                    lemma_blocked(*board, spawn_at(kind, 19));
                    lemma_blocked(*board, spawn_at(kind, 20));
                }
                if !board.obstructed(&spawned) {
                    return Some(spawned);
                }
                spawned.y = 20;
                if !board.obstructed(&spawned) {
                    return Some(spawned);
                }
                None
            },
            SpawnRule::Row21AndFall => {
                let mut spawned = FallingPiece {
                    kind: PieceState(kind, RotationState::North),
                    x: 4,
                    y: 21,
                    tspin: TspinStatus::NoSpin,
                };
                proof {
                    lemma_blocked(*board, spawn_at(kind, 21));
                }
                if board.obstructed(&spawned) {
                    return None;
                }
                spawned.shift(board, 0, -1);
                Some(spawned)
            },
        }
    }
}


/// The piece after input `m`: where the input moves it, or where it was when it cannot move.
pub open spec fn after_input(g: Seq<Seq<bool>>, m: PieceMovement, p: FallingPiece) -> FallingPiece {
    match apply_spec(g, m, p) {
        Some(q) => q,
        None => p,
    }
}

/// The piece after the inputs `ms` in turn, starting from `p`.
pub open spec fn replay(g: Seq<Seq<bool>>, p: FallingPiece, ms: Seq<PieceMovement>) -> FallingPiece
    decreases ms.len(),
{
    if ms.len() == 0 {
        p
    } else {
        after_input(g, ms.last(), replay(g, p, ms.drop_last()))
    }
}

/// The piece dropped as far as it goes.
pub open spec fn dropped(g: Seq<Seq<bool>>, p: FallingPiece) -> FallingPiece {
    after_input(g, PieceMovement::SonicDrop, p)
}

/// The inputs `ms`, followed by a hard drop, bring the piece from `spawned` to `location`.
pub open spec fn reaches(g: Seq<Seq<bool>>, spawned: FallingPiece, ms: Seq<PieceMovement>, location: FallingPiece) -> bool {
    dropped(g, replay(g, spawned, ms)) == location
}

/// The frames the `k`-th input takes, moving the piece from `before` to `after`: one for a
/// shift or turn, two for each row of a soft drop (none under 20G, where pieces fall at once),
/// and one more when the same button was pressed just before.
pub open spec fn input_cost(mode: MovementMode, ms: Seq<PieceMovement>, k: int, before: FallingPiece, after: FallingPiece) -> int {
    (if ms[k] == PieceMovement::SonicDrop {
        if mode == MovementMode::TwentyG {
            0
        } else {
            2 * (before.y - after.y)
        }
    } else {
        1
    }) + if k > 0 && ms[k - 1] == ms[k] {
        1int
    } else {
        0
    }
}

/// The frames the inputs `ms` take from `spawned`.
pub open spec fn input_time(g: Seq<Seq<bool>>, spawned: FallingPiece, mode: MovementMode, ms: Seq<PieceMovement>) -> int
    decreases ms.len(),
{
    if ms.len() == 0 {
        0
    } else {
        let k = ms.len() - 1;
        let before = replay(g, spawned, ms.drop_last());
        input_time(g, spawned, mode, ms.drop_last()) + input_cost(mode, ms, k, before, after_input(g, ms[k], before))
    }
}

/// Two placements lock the same cells with the same spin.
pub open spec fn same_lock(a: FallingPiece, b: FallingPiece) -> bool {
    a.tspin == b.tspin && forall|x: int, y: int| #[trigger] a.covers(x, y) == b.covers(x, y)
}

/// A placement the search reports: it fits, rests on the stack or floor, has a cell below row
/// twenty, and its at most thirty-two inputs, followed by a hard drop, bring the spawned piece
/// there in the frames it gives.
pub open spec fn found(g: Seq<Seq<bool>>, spawned: FallingPiece, mode: MovementMode, e: Placement) -> bool {
    &&& !collides_g(g, e.location, 0, 0)
    &&& collides_g(g, e.location, 0, -1)
    &&& exists|k: int| 0 <= k < 4 && #[trigger] e.location.cell(k).1 < 20
    &&& e.inputs.movements@.len() <= 32
    &&& reaches(g, spawned, e.inputs.movements@, e.location)
    &&& e.inputs.time == input_time(g, spawned, mode, e.inputs.movements@)
}

/// A position waiting to be searched from: it fits, and its inputs lead to it (or, with all
/// thirty-two used under 20G, to the position it falls to), in the frames it gives.
pub open spec fn queued(g: Seq<Seq<bool>>, spawned: FallingPiece, mode: MovementMode, e: Placement) -> bool {
    let ms = e.inputs.movements@;
    &&& !collides_g(g, e.location, 0, 0)
    &&& ms.len() <= 32
    &&& e.inputs.time == input_time(g, spawned, mode, ms)
    &&& e.inputs.time <= 100 * ms.len()
    &&& (e.location == replay(g, spawned, ms) || (ms.len() == 32 && mode == MovementMode::TwentyG
        && e.location == dropped(g, replay(g, spawned, ms))))
    &&& (mode == MovementMode::TwentyG ==> collides_g(g, e.location, 0, -1))
}

/// How many entries of `s` are set.
pub open spec fn count_set(s: Seq<bool>) -> int
    decreases s.len(),
{
    if s.len() == 0 {
        0
    } else {
        count_set(s.drop_last()) + if s.last() {
            1int
        } else {
            0
        }
    }
}

proof fn lemma_count_set_bound(s: Seq<bool>)
    ensures
        0 <= count_set(s) <= s.len(),
    decreases s.len(),
{
    if s.len() > 0 {
        lemma_count_set_bound(s.drop_last());
    }
}

proof fn lemma_count_set_update(s: Seq<bool>, k: int)
    requires
        0 <= k < s.len(),
        !s[k],
    ensures
        count_set(s.update(k, true)) == count_set(s) + 1,
    decreases s.len(),
{
    let t = s.update(k, true);
    if k == s.len() - 1 {
        assert(t.drop_last() =~= s.drop_last());
    } else {
        assert(t.drop_last() =~= s.drop_last().update(k, true));
        lemma_count_set_update(s.drop_last(), k);
    }
}

/// Moving a piece moves its collisions with it.
proof fn lemma_collides_moved(g: Seq<Seq<bool>>, p: FallingPiece, q: FallingPiece, a: int, b: int)
    requires
        p.kind == q.kind,
    ensures
        collides_g(g, q, a, b) == collides_g(g, p, a + q.x - p.x, b + q.y - p.y),
{
    if collides_g(g, q, a, b) {
        let i = choose|i: int| 0 <= i < 4 && #[trigger] occ_grid(g, q.cell(i).0 + a, q.cell(i).1 + b);
        assert(occ_grid(g, p.cell(i).0 + (a + q.x - p.x), p.cell(i).1 + (b + q.y - p.y)));
    }
    if collides_g(g, p, a + q.x - p.x, b + q.y - p.y) {
        let i = choose|i: int| 0 <= i < 4 && #[trigger] occ_grid(g, p.cell(i).0 + (a + q.x - p.x), p.cell(i).1 + (b + q.y - p.y));
        assert(occ_grid(g, q.cell(i).0 + a, q.cell(i).1 + b));
    }
}

/// A piece that fits has its center on the playfield.
pub(crate) proof fn lemma_fits_centered(g: Seq<Seq<bool>>, p: FallingPiece)
    requires
        !collides_g(g, p, 0, 0),
    ensures
        0 <= p.x < 10,
        0 <= p.y < 40,
        near_field(p),
        p.in_range(),
{
    crate::piece::lemma_center(p.kind);
    let c = crate::piece::center_index(p.kind.0);
    assert(p.cell(c) == (p.x as int, p.y as int));
    assert(!occ_grid(g, p.cell(c).0 + 0, p.cell(c).1 + 0));
}

/// A piece dropped from a row on the playfield stops on it or above the floor.
proof fn lemma_drop_floor(g: Seq<Seq<bool>>, p: FallingPiece, y: int)
    requires
        0 <= y,
    ensures
        0 <= drop_to_g(g, p, y) <= y,
    decreases y - i32::MIN,
{
    if !(y - 1 < i32::MIN + 3 || collides_g(g, p, 0, y - 1 - p.y)) {
        if y == 0 {
            crate::piece::lemma_center(p.kind);
            let c = crate::piece::center_index(p.kind.0);
            assert(occ_grid(g, p.cell(c).0 + 0, p.cell(c).1 + (y - 1 - p.y)));
        } else {
            lemma_drop_floor(g, p, y - 1);
        }
    }
}

/// Same cells and spin is an equivalence.
proof fn lemma_same_lock_trans(a: FallingPiece, b: FallingPiece, c: FallingPiece)
    requires
        same_lock(a, b),
        same_lock(b, c),
    ensures
        same_lock(a, c),
        same_lock(b, a),
{
    assert forall|x: int, y: int| #[trigger] a.covers(x, y) == c.covers(x, y) by {
        assert(a.covers(x, y) == b.covers(x, y));
        assert(b.covers(x, y) == c.covers(x, y));
    }
    assert forall|x: int, y: int| #[trigger] b.covers(x, y) == a.covers(x, y) by {
        assert(a.covers(x, y) == b.covers(x, y));
    }
}

/// An input leaves a fitting piece fitting, and a piece at rest cannot be dropped.
pub(crate) proof fn lemma_input_fits(g: Seq<Seq<bool>>, m: PieceMovement, p: FallingPiece)
    requires
        !collides_g(g, p, 0, 0),
    ensures
        !collides_g(g, after_input(g, m, p), 0, 0),
        collides_g(g, p, 0, -1) ==> apply_spec(g, PieceMovement::SonicDrop, p) is None,
        after_input(g, m, p).kind.0 == p.kind.0,
        m == PieceMovement::SonicDrop ==> 0 <= after_input(g, m, p).y <= p.y,
        m == PieceMovement::SonicDrop && after_input(g, m, p).y == p.y ==> after_input(g, m, p) == p,
{
    lemma_fits_centered(g, p);
    let q = after_input(g, m, p);
    match m {
        PieceMovement::Left => {
            lemma_collides_moved(g, p, q, 0, 0);
        },
        PieceMovement::Right => {
            lemma_collides_moved(g, p, q, 0, 0);
        },
        PieceMovement::Cw => {
            lemma_turn_fits(g, p, crate::rotation::cw_of(p.kind.1), 0);
        },
        PieceMovement::Ccw => {
            lemma_turn_fits(g, p, crate::rotation::ccw_of(p.kind.1), 0);
        },
        PieceMovement::SonicDrop => {
            crate::board::lemma_drop_fits(g, p, p.y as int);
            lemma_drop_floor(g, p, p.y as int);
            lemma_collides_moved(g, p, q, 0, 0);
        },
    }
    if collides_g(g, p, 0, -1) {
        assert(drop_to_g(g, p, p.y as int) == p.y);
    }
}

/// A turn that lands fits, and keeps the piece.
proof fn lemma_turn_fits(g: Seq<Seq<bool>>, p: FallingPiece, to: RotationState, i: int)
    ensures
        turn_from(g, p, to, i) matches Some(q) ==> !collides_g(g, q, 0, 0) && q.kind.0 == p.kind.0,
    decreases 5 - i,
{
    if 0 <= i < 5 {
        let c = kicked(p, to, i);
        if !collides_g(g, c, 0, 0) {
            let q = FallingPiece { tspin: spin_status(g, c, i), ..c };
            lemma_collides_moved(g, c, q, 0, 0);
        } else {
            lemma_turn_fits(g, p, to, i + 1);
        }
    }
}


/// A piece that fits has all its cells on the playfield.
pub(crate) proof fn lemma_fits_cells(g: Seq<Seq<bool>>, p: FallingPiece)
    requires
        !collides_g(g, p, 0, 0),
    ensures
        forall|i: int| 0 <= i < 4 ==> 0 <= #[trigger] p.cell(i).0 < 10 && 0 <= p.cell(i).1 < 40,
{
    assert forall|i: int| 0 <= i < 4 implies 0 <= #[trigger] p.cell(i).0 < 10 && 0 <= p.cell(i).1 < 40 by {
        assert(!occ_grid(g, p.cell(i).0 + 0, p.cell(i).1 + 0));
    }
}

/// One more input: where it leaves the piece and the frames it adds.
proof fn lemma_push_input(g: Seq<Seq<bool>>, sp: FallingPiece, mode: MovementMode, ms: Seq<PieceMovement>, m: PieceMovement)
    ensures
        replay(g, sp, ms.push(m)) == after_input(g, m, replay(g, sp, ms)),
        input_time(g, sp, mode, ms.push(m)) == input_time(g, sp, mode, ms) + (if m == PieceMovement::SonicDrop {
            if mode == MovementMode::TwentyG {
                0
            } else {
                2 * (replay(g, sp, ms).y - after_input(g, m, replay(g, sp, ms)).y)
            }
        } else {
            1
        }) + if ms.len() > 0 && ms.last() == m {
            1int
        } else {
            0
        },
{
    assert(ms.push(m).drop_last() =~= ms);
    if ms.len() > 0 {
        assert(ms.push(m)[ms.len() - 1] == ms.last());
    }
}

/// The inputs, each copied.
fn copy_moves(v: &Vec<PieceMovement>) -> (r: Vec<PieceMovement>)
    ensures
        r@ == v@,
{
    let mut r: Vec<PieceMovement> = Vec::new();
    let mut i: usize = 0;
    while i < v.len()
        invariant
            i <= v.len(),
            r@ == v@.subrange(0, i as int),
        decreases v.len() - i,
    {
        r.push(v[i]);
        i = i + 1;
    }
    assert(r@ =~= v@);
    r
}

/// Drops the piece as far as it goes, as `dropped` says; it then rests on the stack or floor.
fn drop_piece(board: &Board, p: &mut FallingPiece) -> (moved: bool)
    requires
        board.inv(),
        !board.collides(*old(p), 0, 0),
    ensures
        *final(p) == dropped(board.grid(), *old(p)),
        final(p).kind == old(p).kind,
        moved == (final(p).y < old(p).y),
        !board.collides(*final(p), 0, 0),
        board.collides(*final(p), 0, -1),
        0 <= old(p).y - final(p).y < 40,
{
    proof {
        lemma_fits_centered(board.grid(), *p);
        lemma_input_fits(board.grid(), PieceMovement::SonicDrop, *p);
    }
    let moved = p.sonic_drop(board);
    proof {
        lemma_fits_centered(board.grid(), *p);
    }
    moved
}

/// The number of an orientation.
pub open spec fn rot_num(r: RotationState) -> int {
    match r {
        RotationState::North => 0,
        RotationState::East => 1,
        RotationState::South => 2,
        RotationState::West => 3,
    }
}

/// The number of a spin.
pub open spec fn spin_num(t: TspinStatus) -> int {
    match t {
        TspinStatus::NoSpin => 0,
        TspinStatus::Mini => 1,
        TspinStatus::Full => 2,
    }
}

/// The index under which the search marks a position: its column, row, orientation and spin.
pub open spec fn seen_key(p: FallingPiece) -> int {
    ((p.x * 40 + p.y) * 4 + rot_num(p.kind.1)) * 3 + spin_num(p.tspin)
}

proof fn lemma_digit(a: int, t: int, b: int, u: int, n: int)
    requires
        0 <= t < n,
        0 <= u < n,
        a * n + t == b * n + u,
    ensures
        a == b,
        t == u,
{
    assert(a == b && t == u) by (nonlinear_arith)
        requires
            0 <= t < n,
            0 <= u < n,
            a * n + t == b * n + u,
    ;
}

/// Two positions of one piece on the playfield with the same index are the same.
proof fn lemma_seen_key_unique(p: FallingPiece, q: FallingPiece)
    requires
        p.kind.0 == q.kind.0,
        0 <= p.x < 10,
        0 <= p.y < 40,
        0 <= q.x < 10,
        0 <= q.y < 40,
        seen_key(p) == seen_key(q),
    ensures
        p == q,
{
    lemma_digit((p.x * 40 + p.y) * 4 + rot_num(p.kind.1), spin_num(p.tspin), (q.x * 40 + q.y) * 4 + rot_num(q.kind.1), spin_num(q.tspin), 3);
    lemma_digit(p.x * 40 + p.y, rot_num(p.kind.1), q.x * 40 + q.y, rot_num(q.kind.1), 4);
    lemma_digit(p.x as int, p.y as int, q.x as int, q.y as int, 40);
    assert(p.kind.1 == q.kind.1);
    assert(p.tspin == q.tspin);
}

/// The index under which the search marks a position it has seen, as `seen_key` says.
fn seen_index(p: &FallingPiece) -> (k: usize)
    requires
        0 <= p.x < 10,
        0 <= p.y < 40,
    ensures
        k < 4800,
        k == seen_key(*p),
{
    let r: usize = match p.kind.1 {
        RotationState::North => 0,
        RotationState::East => 1,
        RotationState::South => 2,
        RotationState::West => 3,
    };
    let t: usize = match p.tspin {
        TspinStatus::NoSpin => 0,
        TspinStatus::Mini => 1,
        TspinStatus::Full => 2,
    };
    (((p.x as usize) * 40 + p.y as usize) * 4 + r) * 3 + t
}

/// Marks entry `k`; returns whether it was not marked yet.
fn mark(seen: &mut Vec<bool>, k: usize) -> (fresh: bool)
    requires
        k < old(seen).len(),
    ensures
        fresh == !old(seen)@[k as int],
        final(seen)@.len() == old(seen)@.len(),
        final(seen)@ == old(seen)@.update(k as int, true),
        count_set(final(seen)@) == count_set(old(seen)@) + if fresh {
            1int
        } else {
            0
        },
{
    if seen[k] {
        assert(seen@.update(k as int, true) =~= seen@);
        false
    } else {
        proof {
            lemma_count_set_update(seen@, k as int);
        }
        seen.set(k, true);
        true
    }
}

/// The piece covers cell `(x, y)`.
fn covers_exec(p: &FallingPiece, x: i32, y: i32) -> (b: bool)
    requires
        p.in_range(),
    ensures
        b == p.covers(x as int, y as int),
{
    let cells = p.cells();
    let mut i: usize = 0;
    while i < 4
        invariant
            i <= 4,
            p.in_range(),
            forall|k: int| 0 <= k < 4 ==> (cells@[k].0 as int, cells@[k].1 as int) == #[trigger] p.cell(k),
            forall|k: int| 0 <= k < i ==> p.cell(k) != (x as int, y as int),
        decreases 4 - i,
    {
        assert(p.cell(i as int) == (cells@[i as int].0 as int, cells@[i as int].1 as int));
        if cells[i].0 == x && cells[i].1 == y {
            return true;
        }
        i = i + 1;
    }
    false
}

/// Every cell of `a` is a cell of `b`.
fn cells_within(a: &FallingPiece, b: &FallingPiece) -> (r: bool)
    requires
        a.in_range(),
        b.in_range(),
    ensures
        r == forall|k: int| 0 <= k < 4 ==> b.covers(#[trigger] a.cell(k).0, a.cell(k).1),
{
    let ca = a.cells();
    let mut i: usize = 0;
    while i < 4
        invariant
            i <= 4,
            a.in_range(),
            b.in_range(),
            forall|k: int| 0 <= k < 4 ==> (ca@[k].0 as int, ca@[k].1 as int) == #[trigger] a.cell(k),
            forall|k: int| 0 <= k < i ==> b.covers(#[trigger] a.cell(k).0, a.cell(k).1),
        decreases 4 - i,
    {
        assert(a.cell(i as int) == (ca@[i as int].0 as int, ca@[i as int].1 as int));
        if !covers_exec(b, ca[i].0, ca[i].1) {
            return false;
        }
        i = i + 1;
    }
    true
}

/// Two placements lock the same cells with the same spin, as `same_lock` says.
fn same_lock_exec(a: &FallingPiece, b: &FallingPiece) -> (r: bool)
    requires
        a.in_range(),
        b.in_range(),
    ensures
        r == same_lock(*a, *b),
{
    if a.tspin != b.tspin {
        return false;
    }
    let ab = cells_within(a, b);
    let ba = cells_within(b, a);
    proof {
        if ab && ba {
            assert forall|x: int, y: int| #[trigger] a.covers(x, y) == b.covers(x, y) by {
                if a.covers(x, y) {
                    let k = choose|k: int| 0 <= k < 4 && #[trigger] a.cell(k) == (x, y);
                    assert(b.covers(a.cell(k).0, a.cell(k).1));
                }
                if b.covers(x, y) {
                    let k = choose|k: int| 0 <= k < 4 && #[trigger] b.cell(k) == (x, y);
                    assert(a.covers(b.cell(k).0, b.cell(k).1));
                }
            }
        }
        if !ab {
            let k = choose|k: int| 0 <= k < 4 && !b.covers(#[trigger] a.cell(k).0, a.cell(k).1);
            assert(a.covers(a.cell(k).0, a.cell(k).1));
        }
        if !ba {
            let k = choose|k: int| 0 <= k < 4 && !a.covers(#[trigger] b.cell(k).0, b.cell(k).1);
            assert(b.covers(b.cell(k).0, b.cell(k).1));
        }
    }
    ab && ba
}

/// Some placement found locks the cells of `p` with its spin.
pub open spec fn covered(found: Seq<Placement>, p: FallingPiece) -> bool {
    exists|i: int| 0 <= i < found.len() && same_lock(#[trigger] found[i].location, p)
}

/// Some cell of the piece lies below row twenty.
pub open spec fn below_twenty(p: FallingPiece) -> bool {
    exists|k: int| 0 <= k < 4 && #[trigger] p.cell(k).1 < 20
}

/// Files a resting placement reached by `inputs`, unless all its cells lie in row twenty or
/// above: a new one is added, and one with the same cells and spin is replaced when the new
/// inputs are quicker.
fn lock_check(
    board: &Board,
    piece: FallingPiece,
    locks: &mut Vec<Placement>,
    inputs: InputList,
    Ghost(sp): Ghost<FallingPiece>,
    mode: MovementMode,
)
    requires
        board.inv(),
        !board.collides(piece, 0, 0),
        board.collides(piece, 0, -1),
        inputs.movements@.len() <= 32,
        reaches(board.grid(), sp, inputs.movements@, piece),
        inputs.time == input_time(board.grid(), sp, mode, inputs.movements@),
        forall|i: int| 0 <= i < old(locks)@.len() ==> found(board.grid(), sp, mode, #[trigger] old(locks)@[i]),
        forall|i: int, j: int| 0 <= i < j < old(locks)@.len() ==> !same_lock(old(locks)@[i].location, old(locks)@[j].location),
    ensures
        forall|i: int| 0 <= i < final(locks)@.len() ==> found(board.grid(), sp, mode, #[trigger] final(locks)@[i]),
        forall|i: int, j: int| 0 <= i < j < final(locks)@.len() ==> !same_lock(final(locks)@[i].location, final(locks)@[j].location),
        below_twenty(piece) ==> covered(final(locks)@, piece),
        forall|p: FallingPiece| #[trigger] covered(old(locks)@, p) ==> covered(final(locks)@, p),
{
    let ghost g = board.grid();
    proof {
        lemma_fits_centered(g, piece);
        lemma_fits_cells(g, piece);
    }
    let cells = piece.cells();
    let mut low = false;
    let mut c: usize = 0;
    while c < 4
        invariant
            c <= 4,
            piece.in_range(),
            forall|k: int| 0 <= k < 4 ==> (cells@[k].0 as int, cells@[k].1 as int) == #[trigger] piece.cell(k),
            low == exists|k: int| 0 <= k < c && #[trigger] piece.cell(k).1 < 20,
        decreases 4 - c,
    {
        assert(piece.cell(c as int) == (cells@[c as int].0 as int, cells@[c as int].1 as int));
        if cells[c].1 < 20 {
            low = true;
        }
        c = c + 1;
    }
    if !low {
        return;
    }
    let entry = Placement { inputs, location: piece };
    assert(found(g, sp, mode, entry));
    let mut j: usize = 0;
    while j < locks.len()
        invariant
            j <= locks.len(),
            board.inv(),
            g == board.grid(),
            piece.in_range(),
            found(g, sp, mode, entry),
            entry.location == piece,
            locks@ == old(locks)@,
            forall|i: int| 0 <= i < locks@.len() ==> found(g, sp, mode, #[trigger] locks@[i]),
            forall|i: int, k: int| 0 <= i < k < locks@.len() ==> !same_lock(locks@[i].location, locks@[k].location),
            forall|i: int| 0 <= i < j ==> !same_lock(#[trigger] locks@[i].location, piece),
        decreases locks.len() - j,
    {
        proof {
            lemma_fits_centered(g, locks@[j as int].location);
        }
        if same_lock_exec(&locks[j].location, &piece) {
            assert(covered(locks@, piece));
            if entry.inputs.time < locks[j].inputs.time {
                let ghost before = locks@;
                locks.set(j, entry);
                proof {
                    assert(same_lock(piece, piece));
                    assert(same_lock(locks@[j as int].location, piece));
                    assert(covered(locks@, piece));
                    lemma_same_lock_trans(before[j as int].location, piece, piece);
                    assert forall|p: FallingPiece| #[trigger] covered(before, p) implies covered(locks@, p) by {
                        let i = choose|i: int| 0 <= i < before.len() && same_lock(#[trigger] before[i].location, p);
                        if i == j as int {
                            lemma_same_lock_trans(piece, before[i].location, p);
                            assert(same_lock(locks@[i].location, p));
                        } else {
                            assert(locks@[i] == before[i]);
                        }
                    }
                    assert(same_lock(piece, piece));
                    lemma_same_lock_trans(before[j as int].location, piece, piece);
                    assert forall|i: int, k: int| 0 <= i < k < locks@.len() implies !same_lock(locks@[i].location, locks@[k].location) by {
                        if i == j as int && same_lock(piece, before[k].location) {
                            lemma_same_lock_trans(before[i].location, piece, before[k].location);
                        } else if k == j as int && same_lock(before[i].location, piece) {
                            lemma_same_lock_trans(before[i].location, piece, before[k].location);
                        }
                    }
                }
            }
            return;
        }
        j = j + 1;
    }
    proof {
        assert forall|i: int| 0 <= i < locks@.len() implies !same_lock(piece, #[trigger] locks@[i].location) by {
            if same_lock(piece, locks@[i].location) {
                assert forall|x: int, y: int| #[trigger] locks@[i].location.covers(x, y) == piece.covers(x, y) by {
                    assert(piece.covers(x, y) == locks@[i].location.covers(x, y));
                }
            }
        }
    }
    let ghost before = locks@;
    locks.push(entry);
    proof {
        assert(same_lock(piece, piece));
        assert(locks@[before.len() as int].location == piece);
        assert(covered(locks@, piece));
        assert forall|p: FallingPiece| #[trigger] covered(before, p) implies covered(locks@, p) by {
            let i = choose|i: int| 0 <= i < before.len() && same_lock(#[trigger] before[i].location, p);
            assert(locks@[i] == before[i]);
        }
    }
}

/// The search's step from a queued position: carries out `input` (repeated as far as it goes
/// with auto-shift when `repeat`) and queues the new position, with the inputs that reach it,
/// if it was not seen before. In fast mode a position above the stack without a spin is
/// skipped; under 20G the piece then falls, which the inputs record as a drop; a drop under
/// hard-drop-only play is marked but not searched from.
fn attempt(
    board: &Board,
    e: &Placement,
    seen: &mut Vec<bool>,
    queue: &mut Vec<Placement>,
    Ghost(sp): Ghost<FallingPiece>,
    mode: MovementMode,
    fast_mode: bool,
    input: PieceMovement,
    repeat: bool,
)
    requires
        board.inv(),
        queued(board.grid(), sp, mode, *e),
        e.inputs.movements@.len() < 32,
        repeat ==> input != PieceMovement::SonicDrop,
        old(seen)@.len() == 4800,
        forall|i: int| 0 <= i < old(queue)@.len() ==> queued(board.grid(), sp, mode, #[trigger] old(queue)@[i]),
    ensures
        final(seen)@.len() == 4800,
        old(queue)@.len() <= final(queue)@.len() <= old(queue)@.len() + 1,
        forall|i: int| 0 <= i < final(queue)@.len() ==> queued(board.grid(), sp, mode, #[trigger] final(queue)@[i]),
        count_set(final(seen)@) - count_set(old(seen)@) >= final(queue)@.len() - old(queue)@.len(),
        forall|i: int| 0 <= i < old(queue)@.len() ==> #[trigger] final(queue)@[i] == old(queue)@[i],
        forall|i: int| old(queue)@.len() <= i < final(queue)@.len() ==> (#[trigger] final(queue)@[i]).location.kind.0
            == e.location.kind.0,
        forall|k: int| 0 <= k < 4800 && #[trigger] old(seen)@[k] ==> final(seen)@[k],
        explores_all(mode) && !repeat ==> (apply_spec(board.grid(), input, e.location) matches Some(q) ==> (kept(
            *board,
            fast_mode,
            q,
        ) ==> final(seen)@[seen_key(q)])),
        explores_all(mode) ==> new_marks_witnessed(old(seen)@, final(seen)@, old(queue)@, final(queue)@),
        grew(old(seen)@, final(seen)@, old(queue)@, final(queue)@),
{
    let ghost g = board.grid();
    let mut piece = e.location;
    let orig_y = piece.y;
    proof {
        lemma_fits_centered(g, piece);
        lemma_input_fits(g, input, piece);
    }
    if !input.apply(&mut piece, board) {
        return;
    }
    let ghost q0 = piece;
    let mut ms = copy_moves(&e.inputs.movements);
    let mut time = e.inputs.time;
    proof {
        lemma_fits_centered(g, piece);
        lemma_push_input(g, sp, mode, ms@, input);
    }
    if input == PieceMovement::SonicDrop {
        time = time + 2 * ((orig_y - piece.y) as u32);
    } else {
        time = time + 1;
    }
    if ms.len() > 0 && ms[ms.len() - 1] == input {
        time = time + 1;
    }
    ms.push(input);
    loop
        invariant_except_break
            board.inv(),
            g == board.grid(),
            !collides_g(g, piece, 0, 0),
            ms@.len() <= 32,
            ms@.len() >= 1,
            ms@.last() == input,
            repeat ==> input != PieceMovement::SonicDrop,
            piece == replay(g, sp, ms@),
            time == input_time(g, sp, mode, ms@),
            time <= 100 * ms@.len(),
            !repeat ==> piece == q0,
            piece.kind.0 == e.location.kind.0,
        ensures
            board.inv(),
            g == board.grid(),
            !collides_g(g, piece, 0, 0),
            ms@.len() <= 32,
            ms@.len() >= 1,
            ms@.last() == input,
            piece == replay(g, sp, ms@),
            time == input_time(g, sp, mode, ms@),
            time <= 100 * ms@.len(),
            !repeat ==> piece == q0,
            piece.kind.0 == e.location.kind.0,
        decreases 32 - ms@.len(),
    {
        if !(repeat && ms.len() < 32) {
            break;
        }
        proof {
            lemma_fits_centered(g, piece);
            lemma_input_fits(g, input, piece);
            lemma_push_input(g, sp, mode, ms@, input);
        }
        if !input.apply(&mut piece, board) {
            break;
        }
        ms.push(input);
        time = time + 2;
    }
    proof {
        lemma_fits_centered(g, piece);
        lemma_fits_cells(g, piece);
    }
    let keep = !fast_mode || piece.tspin != TspinStatus::NoSpin || !board.above_stack(&piece);
    if !keep {
        return;
    }
    let ghost pre = piece;
    let mut drop_input = false;
    if mode == MovementMode::TwentyG {
        proof {
            lemma_input_fits(g, PieceMovement::SonicDrop, pre);
        }
        drop_input = drop_piece(board, &mut piece);
        assert(!drop_input ==> piece == pre);
    }
    proof {
        lemma_fits_centered(g, piece);
    }
    let k = seen_index(&piece);
    let ghost s0 = seen@;
    let ghost q_len = queue@.len();
    if !mark(seen, k) {
        proof {
            assert forall|j: int| 0 <= j < 4800 && #[trigger] seen@[j] implies s0[j] by {
                if j == k as int {
                    assert(s0[j]);
                }
            }
        }
        return;
    }
    if drop_input && ms.len() < 32 {
        proof {
            lemma_push_input(g, sp, mode, ms@, PieceMovement::SonicDrop);
        }
        ms.push(PieceMovement::SonicDrop);
    }
    if !(mode == MovementMode::HardDropOnly && input == PieceMovement::SonicDrop) {
        queue.push(Placement { inputs: InputList { movements: ms, time }, location: piece });
        proof {
            assert(seen_key(queue@[q_len as int].location) == k);
        }
    }
}

/// The inputs the search tries from a position: both shifts, the sonic drop, and both turns for
/// a piece other than the O.
pub open spec fn tried(e: FallingPiece, m: PieceMovement) -> bool {
    (m != PieceMovement::Cw && m != PieceMovement::Ccw) || e.kind.0 != Piece::O
}

/// The search explores every input from every position it reaches: at zero gravity, complete or
/// fast.
pub open spec fn explores_all(mode: MovementMode) -> bool {
    mode == MovementMode::ZeroGComplete || mode == MovementMode::ZeroG
}

/// Every column of the board is lower than sixteen rows.
pub open spec fn low_stack(board: Board) -> bool {
    forall|x: int| 0 <= x < 10 ==> #[trigger] board.height(x) < 16
}

/// The search runs in fast mode: at zero gravity, not complete, on a low stack.
pub open spec fn fast_search(mode: MovementMode, board: Board) -> bool {
    mode == MovementMode::ZeroG && low_stack(board)
}

/// The search keeps a position it reaches: always, but in fast mode a position without a spin
/// whose cells are all at or above the stack is left to the starts.
pub open spec fn kept(board: Board, fast: bool, q: FallingPiece) -> bool {
    !fast || q.tspin != TspinStatus::NoSpin || !(forall|i: int| 0 <= i < 4 ==> #[trigger] q.cell(i).1 >= board.height(q.cell(i).0))
}

/// A position of a piece stands in the queue.
pub open spec fn in_queue(queue: Seq<Placement>, p: FallingPiece) -> bool {
    exists|i: int| 0 <= i < queue.len() && #[trigger] queue[i].location == p
}

/// Every marked index belongs to a position of piece `k` that waits in the queue or was
/// explored.
pub open spec fn marks_known(seen: Seq<bool>, k: Piece, queue: Seq<Placement>, explored: Map<FallingPiece, Seq<PieceMovement>>) -> bool {
    forall|j: int|
        0 <= j < seen.len() && #[trigger] seen[j] ==> exists|p: FallingPiece|
            #[trigger] seen_key(p) == j && p.kind.0 == k && (in_queue(queue, p) || explored.contains_key(p))
}

/// Every index marked from `s1` to `s2` is that of a position added from `q1` to `q2`.
pub open spec fn new_marks_witnessed(s1: Seq<bool>, s2: Seq<bool>, q1: Seq<Placement>, q2: Seq<Placement>) -> bool {
    forall|j: int| 0 <= j < s2.len() && #[trigger] s2[j] && !s1[j] ==> exists|i: int|
        q1.len() <= i < q2.len() && seen_key(#[trigger] q2[i].location) == j
}

/// The queue grew from `q1` to `q2` keeping its entries, and the marks from `s1` to `s2`.
pub open spec fn grew(s1: Seq<bool>, s2: Seq<bool>, q1: Seq<Placement>, q2: Seq<Placement>) -> bool {
    &&& s1.len() == s2.len()
    &&& q1.len() <= q2.len()
    &&& forall|i: int| 0 <= i < q1.len() ==> #[trigger] q2[i] == q1[i]
    &&& forall|j: int| 0 <= j < s1.len() && #[trigger] s1[j] ==> s2[j]
}

/// Growth composes.
proof fn lemma_witness_grew(s1: Seq<bool>, s2: Seq<bool>, s3: Seq<bool>, q1: Seq<Placement>, q2: Seq<Placement>, q3: Seq<Placement>)
    requires
        grew(s1, s2, q1, q2),
        grew(s2, s3, q2, q3),
    ensures
        grew(s1, s3, q1, q3),
{
    assert forall|i: int| 0 <= i < q1.len() implies #[trigger] q3[i] == q1[i] by {
        assert(q2[i] == q1[i]);
    }
}

/// Growth and its witnesses compose.
proof fn lemma_witness_compose(s1: Seq<bool>, s2: Seq<bool>, s3: Seq<bool>, q1: Seq<Placement>, q2: Seq<Placement>, q3: Seq<Placement>)
    requires
        grew(s1, s2, q1, q2),
        grew(s2, s3, q2, q3),
        new_marks_witnessed(s1, s2, q1, q2),
        new_marks_witnessed(s2, s3, q2, q3),
    ensures
        grew(s1, s3, q1, q3),
        new_marks_witnessed(s1, s3, q1, q3),
{
    assert forall|j: int| 0 <= j < s3.len() && #[trigger] s3[j] && !s1[j] implies exists|i: int|
        q1.len() <= i < q3.len() && seen_key(#[trigger] q3[i].location) == j by {
        if !s2[j] {
            let i = choose|i: int| q2.len() <= i < q3.len() && seen_key(#[trigger] q3[i].location) == j;
        } else {
            let i = choose|i: int| q1.len() <= i < q2.len() && seen_key(#[trigger] q2[i].location) == j;
            assert(q3[i] == q2[i]);
        }
    }
}

/// From every explored position with fewer than thirty-two inputs, every input the search tries
/// that moves the piece leads to a marked position.
pub open spec fn explored_marks(board: Board, fast: bool, explored: Map<FallingPiece, Seq<PieceMovement>>, seen: Seq<bool>) -> bool {
    let g = board.grid();
    forall|e: FallingPiece, m: PieceMovement|
        #![trigger explored.contains_key(e), apply_spec(g, m, e)]
        explored.contains_key(e) && explored[e].len() < 32 && tried(e, m) && apply_spec(g, m, e) is Some && kept(
            board,
            fast,
            apply_spec(g, m, e)->0,
        ) ==> {
            &&& 0 <= seen_key(apply_spec(g, m, e)->0) < seen.len()
            &&& seen[seen_key(apply_spec(g, m, e)->0)]
        }
}

/// Where every explored position lands, when that is below row twenty, some placement found
/// locks the same cells with the same spin.
pub open spec fn explored_covered(g: Seq<Seq<bool>>, explored: Map<FallingPiece, Seq<PieceMovement>>, found: Seq<Placement>) -> bool {
    forall|e: FallingPiece| #[trigger] explored.contains_key(e) && below_twenty(dropped(g, e)) ==> covered(found, dropped(g, e))
}

/// The search's starting position `t` waits with fewer than thirty-two inputs or was explored
/// with them.
pub open spec fn start_kept(t: FallingPiece, queue: Seq<Placement>, explored: Map<FallingPiece, Seq<PieceMovement>>) -> bool {
    (exists|i: int| 0 <= i < queue.len() && #[trigger] queue[i].location == t && queue[i].inputs.movements@.len() < 32)
        || (explored.contains_key(t) && explored[t].len() < 32)
}

/// The search is closed: it explored a set of positions, each with the inputs it was reached
/// by, that holds the spawned piece (or, for a low stack, where it lands) with fewer than
/// thirty-two inputs; from each explored position with fewer than thirty-two inputs every input
/// it tries that moves the piece (shifts, sonic drop, and turns but for an O) leads to an
/// explored position, unless in fast mode it leads to a position above the stack without a
/// spin; and where any explored position lands, when that is below row twenty, a placement with
/// the same cells and spin was found.
pub open spec fn search_closed(board: Board, fast: bool, spawned: FallingPiece, explored: Map<FallingPiece, Seq<PieceMovement>>, found: Seq<Placement>) -> bool {
    let g = board.grid();
    &&& forall|e: FallingPiece, m: PieceMovement|
        #![trigger explored.contains_key(e), apply_spec(g, m, e)]
        explored.contains_key(e) && explored[e].len() < 32 && tried(e, m) && apply_spec(g, m, e) is Some && kept(
            board,
            fast,
            apply_spec(g, m, e)->0,
        ) ==> explored.contains_key(apply_spec(g, m, e)->0)
    &&& explored_covered(g, explored, found)
    &&& (explored.contains_key(spawned) && explored[spawned].len() < 32) || (explored.contains_key(dropped(g, spawned))
        && explored[dropped(g, spawned)].len() < 32)
}

/// In a closed search, one more input tried from an explored position with room for it (a
/// shift, the sonic drop, or a turn of a piece other than an O) leads to an explored position,
/// and where that lands, when below row twenty, is among the placements found with its cells and
/// spin: a T turned into a slot under an overhang is found like any other placement.
pub proof fn lemma_closed_search_step(
    board: Board,
    fast: bool,
    spawned: FallingPiece,
    explored: Map<FallingPiece, Seq<PieceMovement>>,
    found: Seq<Placement>,
    e: FallingPiece,
    m: PieceMovement,
)
    requires
        search_closed(board, fast, spawned, explored, found),
        explored.contains_key(e),
        explored[e].len() < 32,
        tried(e, m),
        apply_spec(board.grid(), m, e) is Some,
        kept(board, fast, apply_spec(board.grid(), m, e)->0),
    ensures
        explored.contains_key(apply_spec(board.grid(), m, e)->0),
        below_twenty(dropped(board.grid(), apply_spec(board.grid(), m, e)->0)) ==> covered(
            found,
            dropped(board.grid(), apply_spec(board.grid(), m, e)->0),
        ),
{
    let g = board.grid();
    assert(explored.contains_key(apply_spec(g, m, e)->0));
}

/// A position that fits has an index below 4800.
proof fn lemma_key_range(g: Seq<Seq<bool>>, p: FallingPiece)
    requires
        !collides_g(g, p, 0, 0),
    ensures
        0 <= seen_key(p) < 4800,
{
    lemma_fits_centered(g, p);
    let a = p.x * 40 + p.y;
    assert(0 <= a <= 399);
    let b = a * 4 + rot_num(p.kind.1);
    assert(0 <= b <= 1599) by (nonlinear_arith)
        requires
            0 <= a <= 399,
            b == a * 4 + rot_num(p.kind.1),
            0 <= rot_num(p.kind.1) < 4,
    ;
    assert(0 <= b * 3 + spin_num(p.tspin) < 4800) by (nonlinear_arith)
        requires
            0 <= b <= 1599,
            0 <= spin_num(p.tspin) < 3,
    ;
}

/// Replays a start's inputs from the spawned piece, counting their frames.
fn replay_start(board: &Board, spawned: FallingPiece, list: &Vec<PieceMovement>, mode: MovementMode) -> (r: (FallingPiece, u32))
    requires
        board.inv(),
        !board.collides(spawned, 0, 0),
        list@.len() <= 6,
    ensures
        r.0 == replay(board.grid(), spawned, list@),
        r.1 == input_time(board.grid(), spawned, mode, list@),
        r.1 <= 100 * list@.len(),
        !board.collides(r.0, 0, 0),
        r.0.kind.0 == spawned.kind.0,
{
    let ghost g = board.grid();
    let mut piece = spawned;
    let mut time: u32 = 0;
    let mut i: usize = 0;
    while i < list.len()
        invariant
            i <= list@.len() <= 6,
            board.inv(),
            g == board.grid(),
            !collides_g(g, piece, 0, 0),
            piece == replay(g, spawned, list@.subrange(0, i as int)),
            time == input_time(g, spawned, mode, list@.subrange(0, i as int)),
            time <= 100 * i,
            piece.kind.0 == spawned.kind.0,
        decreases list.len() - i,
    {
        let m = list[i];
        let before = piece.y;
        proof {
            lemma_fits_centered(g, piece);
            lemma_input_fits(g, m, piece);
            lemma_push_input(g, spawned, mode, list@.subrange(0, i as int), m);
            assert(list@.subrange(0, i as int).push(m) =~= list@.subrange(0, i as int + 1));
        }
        let moved = m.apply(&mut piece, board);
        proof {
            lemma_fits_centered(g, piece);
        }
        if m == PieceMovement::SonicDrop {
            if mode != MovementMode::TwentyG {
                time = time + 2 * ((before - piece.y) as u32);
            }
        } else {
            time = time + 1;
        }
        if i > 0 && list[i - 1] == m {
            time = time + 1;
        }
        i = i + 1;
    }
    assert(list@.subrange(0, list@.len() as int) =~= list@);
    (piece, time)
}

/// Marks survive growing the queue with new positions of the piece that witness the new marks.
proof fn lemma_marks_grow(
    s1: Seq<bool>,
    s2: Seq<bool>,
    k: Piece,
    q1: Seq<Placement>,
    q2: Seq<Placement>,
    explored: Map<FallingPiece, Seq<PieceMovement>>,
)
    requires
        marks_known(s1, k, q1, explored),
        s1.len() == s2.len(),
        q1.len() <= q2.len(),
        forall|i: int| 0 <= i < q1.len() ==> #[trigger] q2[i] == q1[i],
        forall|i: int| q1.len() <= i < q2.len() ==> (#[trigger] q2[i]).location.kind.0 == k,
        forall|j: int| 0 <= j < s2.len() && #[trigger] s2[j] && !s1[j] ==> exists|i: int|
            q1.len() <= i < q2.len() && seen_key(#[trigger] q2[i].location) == j,
        forall|j: int| 0 <= j < s1.len() && #[trigger] s1[j] ==> s2[j],
    ensures
        marks_known(s2, k, q2, explored),
{
    assert forall|j: int| 0 <= j < s2.len() && #[trigger] s2[j] implies exists|p: FallingPiece|
        #[trigger] seen_key(p) == j && p.kind.0 == k && (in_queue(q2, p) || explored.contains_key(p)) by {
        if s1[j] {
            let p = choose|p: FallingPiece| #[trigger] seen_key(p) == j && p.kind.0 == k && (in_queue(q1, p) || explored.contains_key(p));
            if in_queue(q1, p) {
                let i = choose|i: int| 0 <= i < q1.len() && #[trigger] q1[i].location == p;
                assert(q2[i].location == p);
                assert(in_queue(q2, p));
            }
            assert(seen_key(p) == j && p.kind.0 == k && (in_queue(q2, p) || explored.contains_key(p)));
        } else {
            let i = choose|i: int| q1.len() <= i < q2.len() && seen_key(#[trigger] q2[i].location) == j;
            let p = q2[i].location;
            assert(in_queue(q2, p));
            assert(seen_key(p) == j && p.kind.0 == k && (in_queue(q2, p) || explored.contains_key(p)));
        }
    }
}

/// Marks survive taking a position out of the queue into the explored positions.
proof fn lemma_marks_remove(
    s: Seq<bool>,
    k: Piece,
    q0: Seq<Placement>,
    best: int,
    e1: Map<FallingPiece, Seq<PieceMovement>>,
    e2: Map<FallingPiece, Seq<PieceMovement>>,
)
    requires
        marks_known(s, k, q0, e1),
        0 <= best < q0.len(),
        e2.contains_key(q0[best].location),
        forall|p: FallingPiece| #[trigger] e1.contains_key(p) ==> e2.contains_key(p),
    ensures
        marks_known(s, k, q0.remove(best), e2),
{
    let q1 = q0.remove(best);
    assert forall|j: int| 0 <= j < s.len() && #[trigger] s[j] implies exists|p: FallingPiece|
        #[trigger] seen_key(p) == j && p.kind.0 == k && (in_queue(q1, p) || e2.contains_key(p)) by {
        let p = choose|p: FallingPiece| #[trigger] seen_key(p) == j && p.kind.0 == k && (in_queue(q0, p) || e1.contains_key(p));
        if in_queue(q0, p) && !e1.contains_key(p) {
            let i = choose|i: int| 0 <= i < q0.len() && #[trigger] q0[i].location == p;
            if i < best {
                assert(q1[i] == q0[i]);
                assert(in_queue(q1, p));
            } else if i > best {
                assert(q1[i - 1] == q0[i]);
                assert(in_queue(q1, p));
            } else {
                assert(e2.contains_key(p));
            }
        }
        assert(seen_key(p) == j && p.kind.0 == k && (in_queue(q1, p) || e2.contains_key(p)));
    }
}

/// The search's step from a queued position with room for another input: every input it tries,
/// as `attempt` says.
fn explore(
    board: &Board,
    e: &Placement,
    seen: &mut Vec<bool>,
    queue: &mut Vec<Placement>,
    Ghost(sp): Ghost<FallingPiece>,
    mode: MovementMode,
    fast_mode: bool,
)
    requires
        board.inv(),
        queued(board.grid(), sp, mode, *e),
        e.inputs.movements@.len() < 32,
        old(seen)@.len() == 4800,
        forall|i: int| 0 <= i < old(queue)@.len() ==> queued(board.grid(), sp, mode, #[trigger] old(queue)@[i]),
    ensures
        final(seen)@.len() == 4800,
        old(queue)@.len() <= final(queue)@.len(),
        forall|i: int| 0 <= i < final(queue)@.len() ==> queued(board.grid(), sp, mode, #[trigger] final(queue)@[i]),
        count_set(final(seen)@) - count_set(old(seen)@) >= final(queue)@.len() - old(queue)@.len(),
        forall|i: int| 0 <= i < old(queue)@.len() ==> #[trigger] final(queue)@[i] == old(queue)@[i],
        forall|i: int| old(queue)@.len() <= i < final(queue)@.len() ==> (#[trigger] final(queue)@[i]).location.kind.0
            == e.location.kind.0,
        forall|k: int| 0 <= k < 4800 && #[trigger] old(seen)@[k] ==> final(seen)@[k],
        explores_all(mode) ==> forall|m: PieceMovement|
            tried(e.location, m) && #[trigger] apply_spec(board.grid(), m, e.location) is Some && kept(
                *board,
                fast_mode,
                apply_spec(board.grid(), m, e.location)->0,
            ) ==> {
                &&& 0 <= seen_key(apply_spec(board.grid(), m, e.location)->0) < 4800
                &&& final(seen)@[seen_key(apply_spec(board.grid(), m, e.location)->0)]
            },
        explores_all(mode) ==> new_marks_witnessed(old(seen)@, final(seen)@, old(queue)@, final(queue)@),
        grew(old(seen)@, final(seen)@, old(queue)@, final(queue)@),
{
    let ghost g = board.grid();
    let ghost s0 = seen@;
    let ghost q0 = queue@;
    proof {
        lemma_fits_centered(g, e.location);
        lemma_input_fits(g, PieceMovement::Left, e.location);
        lemma_input_fits(g, PieceMovement::Right, e.location);
        lemma_input_fits(g, PieceMovement::Cw, e.location);
        lemma_input_fits(g, PieceMovement::Ccw, e.location);
        lemma_input_fits(g, PieceMovement::SonicDrop, e.location);
    }
    attempt(board, e, seen, queue, Ghost(sp), mode, fast_mode, PieceMovement::Left, false);
    let ghost s1 = seen@;
    let ghost q1 = queue@;
    attempt(board, e, seen, queue, Ghost(sp), mode, fast_mode, PieceMovement::Right, false);
    let ghost s2 = seen@;
    let ghost q2 = queue@;
    if e.location.kind.0 != Piece::O {
        attempt(board, e, seen, queue, Ghost(sp), mode, fast_mode, PieceMovement::Cw, false);
        let ghost s3 = seen@;
        let ghost q3 = queue@;
        attempt(board, e, seen, queue, Ghost(sp), mode, fast_mode, PieceMovement::Ccw, false);
        proof {
            if explores_all(mode) {
                lemma_witness_compose(s2, s3, seen@, q2, q3, queue@);
            } else {
                lemma_witness_grew(s2, s3, seen@, q2, q3, queue@);
            }
        }
    }
    let ghost s4 = seen@;
    let ghost q4 = queue@;
    if mode == MovementMode::ZeroG {
        attempt(board, e, seen, queue, Ghost(sp), mode, fast_mode, PieceMovement::Left, true);
        let ghost s6 = seen@;
        let ghost q6 = queue@;
        attempt(board, e, seen, queue, Ghost(sp), mode, fast_mode, PieceMovement::Right, true);
        proof {
            lemma_witness_compose(s4, s6, seen@, q4, q6, queue@);
        }
    }
    let ghost s5 = seen@;
    let ghost q5 = queue@;
    attempt(board, e, seen, queue, Ghost(sp), mode, fast_mode, PieceMovement::SonicDrop, false);
    proof {
        assert forall|k: int| 0 <= k < 4800 && #[trigger] s0[k] implies seen@[k] by {
            assert(s1[k]);
            assert(s2[k]);
            assert(s4[k]);
            assert(s5[k]);
        }
        assert forall|i: int| 0 <= i < q0.len() implies #[trigger] queue@[i] == q0[i] by {
            assert(q1[i] == q0[i]);
            assert(q2[i] == q1[i]);
            assert(q4[i] == q2[i]);
            assert(q5[i] == q4[i]);
        }
        assert forall|i: int| q0.len() <= i < queue@.len() implies (#[trigger] queue@[i]).location.kind.0 == e.location.kind.0 by {
            if i >= q5.len() {
            } else {
                assert(queue@[i] == q5[i]);
                if i >= q4.len() {
                } else {
                    assert(q5[i] == q4[i]);
                    if i >= q2.len() {
                    } else {
                        assert(q4[i] == q2[i]);
                        if i >= q1.len() {
                        } else {
                            assert(q2[i] == q1[i]);
                        }
                    }
                }
            }
        }
        if explores_all(mode) {
            assert forall|m: PieceMovement| tried(e.location, m) && #[trigger] apply_spec(g, m, e.location) is Some && kept(
                *board,
                fast_mode,
                apply_spec(g, m, e.location)->0,
            ) implies {
                &&& 0 <= seen_key(apply_spec(g, m, e.location)->0) < 4800
                &&& seen@[seen_key(apply_spec(g, m, e.location)->0)]
            } by {
                let q = apply_spec(g, m, e.location)->0;
                assert(after_input(g, m, e.location) == q);
                lemma_key_range(g, q);
                let k = seen_key(q);
                match m {
                    PieceMovement::Left => {
                        assert(s1[k]);
                        assert(s2[k]);
                        assert(s4[k]);
                        assert(s5[k]);
                    },
                    PieceMovement::Right => {
                        assert(s2[k]);
                        assert(s4[k]);
                        assert(s5[k]);
                    },
                    PieceMovement::Cw => {
                        assert(s4[k]);
                        assert(s5[k]);
                    },
                    PieceMovement::Ccw => {
                        assert(s4[k]);
                        assert(s5[k]);
                    },
                    PieceMovement::SonicDrop => {},
                }
            }
        }
        if explores_all(mode) {
            lemma_witness_compose(s0, s1, s2, q0, q1, q2);
            lemma_witness_compose(s0, s2, s4, q0, q2, q4);
            lemma_witness_compose(s0, s4, s5, q0, q4, q5);
            lemma_witness_compose(s0, s5, seen@, q0, q5, queue@);
        } else {
            lemma_witness_grew(s0, s1, s2, q0, q1, q2);
            lemma_witness_grew(s0, s2, s4, q0, q2, q4);
            lemma_witness_grew(s0, s4, s5, q0, q4, q5);
            lemma_witness_grew(s0, s5, seen@, q0, q5, queue@);
        }
    }
}

/// Finds every placement the piece `spawned` can reach on `board` under movement mode `mode`,
/// with the inputs that reach it: positions are searched quickest first, from the starts a low
/// stack allows or from the spawn position, by shifting, turning (but an O), auto-shifting at
/// zero gravity and dropping, at most thirty-two inputs deep. Each placement is reported once
/// for its cells and spin, with the quickest inputs found; placements entirely in row twenty or
/// above are left out.
pub fn find_moves(board: &Board, spawned: FallingPiece, mode: MovementMode) -> (r: Vec<Placement>)
    requires
        board.inv(),
        !board.collides(spawned, 0, 0),
    ensures
        forall|i: int| 0 <= i < r@.len() ==> found(board.grid(), spawned, mode, #[trigger] r@[i]),
        forall|i: int, j: int| 0 <= i < j < r@.len() ==> !same_lock(r@[i].location, r@[j].location),
        explores_all(mode) ==> exists|explored: Map<FallingPiece, Seq<PieceMovement>>|
            #[trigger] search_closed(*board, fast_search(mode, *board), spawned, explored, r@),
{
    let ghost g = board.grid();
    let ghost k0 = spawned.kind.0;
    let ghost mut explored: Map<FallingPiece, Seq<PieceMovement>> = Map::empty();
    let mut locks: Vec<Placement> = Vec::new();
    let mut seen: Vec<bool> = Vec::new();
    while seen.len() < 4800
        invariant
            seen@.len() <= 4800,
            count_set(seen@) == 0,
            forall|j: int| 0 <= j < seen@.len() ==> !#[trigger] seen@[j],
        decreases 4800 - seen@.len(),
    {
        proof {
            assert(seen@.push(false).drop_last() =~= seen@);
        }
        seen.push(false);
    }
    let mut queue: Vec<Placement> = Vec::new();
    let hs = board.column_heights();
    let mut low = true;
    let mut x: usize = 0;
    while x < 10
        invariant
            x <= 10,
            forall|c: int| 0 <= c < 10 ==> #[trigger] hs@[c] as int == board.height(c),
            low == forall|c: int| 0 <= c < x ==> #[trigger] board.height(c) < 16,
        decreases 10 - x,
    {
        if hs[x] >= 16 {
            low = false;
        }
        x = x + 1;
    }
    assert(low == low_stack(*board));
    let ghost target = if low {
        dropped(g, spawned)
    } else {
        spawned
    };
    proof {
        lemma_fits_centered(g, spawned);
    }
    let fast_mode: bool;
    if low {
        fast_mode = mode == MovementMode::ZeroG;
        let starts: Vec<Vec<PieceMovement>> = if mode == MovementMode::TwentyG {
            let mut v: Vec<Vec<PieceMovement>> = Vec::new();
            v.push(Vec::new());
            v
        } else {
            zero_g_starts(spawned.kind.0)
        };
        let mut s: usize = 0;
        while s < starts.len()
            invariant
                s <= starts@.len(),
                board.inv(),
                g == board.grid(),
                !board.collides(spawned, 0, 0),
                k0 == spawned.kind.0,
                target == dropped(g, spawned),
                explored == Map::<FallingPiece, Seq<PieceMovement>>::empty(),
                fast_mode == (mode == MovementMode::ZeroG),
                low_stack(*board),
                starts@.len() >= 1,
                starts@[0]@.len() == 0,
                forall|i: int| 0 <= i < starts@.len() ==> (#[trigger] starts@[i])@.len() <= 6,
                seen@.len() == 4800,
                forall|i: int| 0 <= i < queue@.len() ==> queued(g, spawned, mode, #[trigger] queue@[i]),
                forall|i: int| 0 <= i < queue@.len() ==> (#[trigger] queue@[i]).location.kind.0 == k0,
                forall|i: int| 0 <= i < locks@.len() ==> found(g, spawned, mode, #[trigger] locks@[i]),
                forall|i: int, j: int| 0 <= i < j < locks@.len() ==> !same_lock(locks@[i].location, locks@[j].location),
                explores_all(mode) ==> marks_known(seen@, k0, queue@, explored),
                explores_all(mode) && s > 0 ==> start_kept(target, queue@, explored),
            decreases starts.len() - s,
        {
            let list = &starts[s];
            let (start, time) = replay_start(board, spawned, list, mode);
            let mut place = start;
            let orig_y = place.y;
            drop_piece(board, &mut place);
            proof {
                lemma_fits_centered(g, place);
                if s == 0 {
                    assert(list@ =~= Seq::<PieceMovement>::empty());
                    assert(place == target);
                }
            }
            let ghost s_before = seen@;
            let ghost q_before = queue@;
            if !fast_mode {
                let k = seen_index(&place);
                mark(&mut seen, k);
            }
            let mut ms = copy_moves(list);
            lock_check(board, place, &mut locks, InputList { movements: copy_moves(list), time }, Ghost(spawned), mode);
            if mode != MovementMode::HardDropOnly {
                let mut t = time;
                proof {
                    lemma_push_input(g, spawned, mode, ms@, PieceMovement::SonicDrop);
                }
                if mode != MovementMode::TwentyG {
                    t = t + 2 * ((orig_y - place.y) as u32);
                }
                if ms.len() > 0 && ms[ms.len() - 1] == PieceMovement::SonicDrop {
                    t = t + 1;
                }
                ms.push(PieceMovement::SonicDrop);
                queue.push(Placement { inputs: InputList { movements: ms, time: t }, location: place });
            }
            proof {
                if explores_all(mode) {
                    let n = q_before.len() as int;
                    assert(queue@[n].location == place);
                    assert forall|j: int| 0 <= j < seen@.len() && #[trigger] seen@[j] && !s_before[j] implies exists|i: int|
                        q_before.len() <= i < queue@.len() && seen_key(#[trigger] queue@[i].location) == j by {
                        assert(seen_key(queue@[n].location) == j);
                    }
                    lemma_marks_grow(s_before, seen@, k0, q_before, queue@, explored);
                    if s == 0 {
                        assert(queue@[n].inputs.movements@.len() == 1);
                        assert(start_kept(target, queue@, explored));
                    } else {
                        let i = choose|i: int| 0 <= i < q_before.len() && #[trigger] q_before[i].location == target
                            && q_before[i].inputs.movements@.len() < 32;
                        assert(queue@[i] == q_before[i]);
                    }
                }
            }
            s = s + 1;
        }
    } else {
        fast_mode = false;
        let mut s = spawned;
        let mut ms: Vec<PieceMovement> = Vec::new();
        proof {
            lemma_fits_centered(g, s);
        }
        if mode == MovementMode::TwentyG {
            proof {
                lemma_push_input(g, spawned, mode, ms@, PieceMovement::SonicDrop);
            }
            drop_piece(board, &mut s);
            ms.push(PieceMovement::SonicDrop);
        }
        proof {
            lemma_fits_centered(g, s);
        }
        let ghost s_before = seen@;
        let k = seen_index(&s);
        mark(&mut seen, k);
        queue.push(Placement { inputs: InputList { movements: ms, time: 0 }, location: s });
        proof {
            if explores_all(mode) {
                assert(queue@[0].location == s);
                assert forall|j: int| 0 <= j < seen@.len() && #[trigger] seen@[j] && !s_before[j] implies exists|i: int|
                    0 <= i < queue@.len() && seen_key(#[trigger] queue@[i].location) == j by {
                    assert(seen_key(queue@[0].location) == j);
                }
                lemma_marks_grow(s_before, seen@, k0, Seq::empty(), queue@, explored);
                assert(queue@[0].inputs.movements@.len() == 0);
                assert(start_kept(target, queue@, explored));
            }
        }
    }
    proof {
        lemma_count_set_bound(seen@);
    }
    while queue.len() > 0
        invariant
            board.inv(),
            g == board.grid(),
            k0 == spawned.kind.0,
            seen@.len() == 4800,
            forall|i: int| 0 <= i < queue@.len() ==> queued(g, spawned, mode, #[trigger] queue@[i]),
            forall|i: int| 0 <= i < queue@.len() ==> (#[trigger] queue@[i]).location.kind.0 == k0,
            forall|i: int| 0 <= i < locks@.len() ==> found(g, spawned, mode, #[trigger] locks@[i]),
            forall|i: int, j: int| 0 <= i < j < locks@.len() ==> !same_lock(locks@[i].location, locks@[j].location),
            forall|p: FallingPiece| #[trigger] explored.contains_key(p) ==> p.kind.0 == k0 && !collides_g(g, p, 0, 0),
            explored_covered(g, explored, locks@),
            fast_mode == fast_search(mode, *board),
            explores_all(mode) ==> marks_known(seen@, k0, queue@, explored),
            explores_all(mode) ==> explored_marks(*board, fast_mode, explored, seen@),
            explores_all(mode) ==> start_kept(target, queue@, explored),
        decreases 2 * (4800 - count_set(seen@)) + queue@.len(),
    {
        proof {
            lemma_count_set_bound(seen@);
        }
        let mut best: usize = 0;
        let mut j: usize = 1;
        while j < queue.len()
            invariant
                best < j <= queue@.len(),
            decreases queue.len() - j,
        {
            if queue[j].inputs.time <= queue[best].inputs.time {
                best = j;
            }
            j = j + 1;
        }
        let ghost q0 = queue@;
        let e = queue.remove(best);
        assert(queued(g, spawned, mode, q0[best as int]));
        assert forall|i: int| 0 <= i < queue@.len() implies queued(g, spawned, mode, #[trigger] queue@[i]) && queue@[i].location.kind.0 == k0 by {
            if i < best {
                assert(queue@[i] == q0[i]);
            } else {
                assert(queue@[i] == q0[i + 1]);
            }
        }
        let ghost e1 = explored;
        proof {
            if e.inputs.movements@.len() < 32 || !explored.contains_key(e.location) {
                explored = explored.insert(e.location, e.inputs.movements@);
            }
            assert(q0[best as int].location.kind.0 == k0);
            if explores_all(mode) {
                lemma_marks_remove(seen@, k0, q0, best as int, e1, explored);
                assert(queue@ == q0.remove(best as int));
                if !(e1.contains_key(target) && e1[target].len() < 32) {
                    let i = choose|i: int| 0 <= i < q0.len() && #[trigger] q0[i].location == target && q0[i].inputs.movements@.len() < 32;
                    if i < best {
                        assert(queue@[i] == q0[i]);
                    } else if i > best {
                        assert(queue@[i - 1] == q0[i]);
                    } else {
                        assert(explored[target].len() < 32);
                    }
                } else {
                    assert(explored.contains_key(target) && explored[target].len() < 32);
                }
                assert(start_kept(target, queue@, explored));
            }
        }
        let ghost c0 = count_set(seen@);
        let ghost l0 = queue@.len();
        let ghost s_mid = seen@;
        let ghost q_mid = queue@;
        if e.inputs.movements.len() < 32 {
            explore(board, &e, &mut seen, &mut queue, Ghost(spawned), mode, fast_mode);
        }
        proof {
            lemma_count_set_bound(seen@);
            assert(count_set(seen@) - c0 >= queue@.len() - l0);
            if explores_all(mode) {
                if e.inputs.movements.len() < 32 {
                    lemma_marks_grow(s_mid, seen@, k0, q_mid, queue@, explored);
                }
                assert forall|p: FallingPiece, m: PieceMovement|
                    #![trigger explored.contains_key(p), apply_spec(g, m, p)]
                    explored.contains_key(p) && explored[p].len() < 32 && tried(p, m) && apply_spec(g, m, p) is Some && kept(
                        *board,
                        fast_mode,
                        apply_spec(g, m, p)->0,
                    ) implies {
                        &&& 0 <= seen_key(apply_spec(g, m, p)->0) < seen@.len()
                        &&& seen@[seen_key(apply_spec(g, m, p)->0)]
                    } by {
                    if p == e.location && e.inputs.movements@.len() < 32 {
                    } else {
                        assert(e1.contains_key(p) && explored[p] == e1[p]);
                        assert(s_mid[seen_key(apply_spec(g, m, p)->0)]);
                    }
                }
                let i = choose|i: int| 0 <= i < q_mid.len() && #[trigger] q_mid[i].location == target && q_mid[i].inputs.movements@.len() < 32;
                if 0 <= i < q_mid.len() && q_mid[i].location == target && q_mid[i].inputs.movements@.len() < 32 {
                    assert(queue@[i] == q_mid[i]);
                }
                assert(start_kept(target, queue@, explored));
            }
        }
        let mut position = e.location;
        proof {
            lemma_fits_centered(g, position);
            lemma_input_fits(g, PieceMovement::SonicDrop, position);
        }
        drop_piece(board, &mut position);
        proof {
            let ms = e.inputs.movements@;
            if e.location != replay(g, spawned, ms) {
                assert(mode == MovementMode::TwentyG);
                assert(collides_g(g, e.location, 0, -1));
                assert(position == e.location);
            }
            assert(reaches(g, spawned, ms, position));
        }
        let ghost locks0 = locks@;
        lock_check(board, position, &mut locks, e.inputs, Ghost(spawned), mode);
        proof {
            assert forall|p: FallingPiece| #[trigger] explored.contains_key(p) && below_twenty(dropped(g, p)) implies covered(locks@, dropped(g, p)) by {
                if p == e.location {
                } else {
                    assert(e1.contains_key(p));
                    assert(covered(locks0, dropped(g, p)));
                }
            }
        }
    }
    proof {
        if explores_all(mode) {
            assert forall|p: FallingPiece, m: PieceMovement|
                #![trigger explored.contains_key(p), apply_spec(g, m, p)]
                explored.contains_key(p) && explored[p].len() < 32 && tried(p, m) && apply_spec(g, m, p) is Some && kept(
                    *board,
                    fast_mode,
                    apply_spec(g, m, p)->0,
                ) implies explored.contains_key(apply_spec(g, m, p)->0) by {
                let q = apply_spec(g, m, p)->0;
                let j = seen_key(q);
                assert(seen@[j]);
                let w = choose|w: FallingPiece| #[trigger] seen_key(w) == j && w.kind.0 == k0 && (in_queue(queue@, w) || explored.contains_key(w));
                assert(!in_queue(queue@, w));
                lemma_input_fits(g, m, p);
                assert(after_input(g, m, p) == q);
                lemma_fits_centered(g, q);
                lemma_fits_centered(g, w);
                lemma_seen_key_unique(w, q);
            }
            assert(explored.contains_key(target) && explored[target].len() < 32);
            assert(search_closed(*board, fast_mode, spawned, explored, locks@));
        }
    }
    locks
}

/// The inputs that reach the starting positions tried when the stack is low: every column and
/// orientation the piece can reach from its spawn position.
fn zero_g_starts(p: Piece) -> (v: Vec<Vec<PieceMovement>>)
    ensures
        forall|i: int| 0 <= i < v@.len() ==> (#[trigger] v@[i])@.len() <= 6,
        v@.len() >= 1,
        v@[0]@.len() == 0,
{
    let v: Vec<Vec<PieceMovement>> = match p {
        Piece::O => vec![
                vec![],
                vec![PieceMovement::Left],
                vec![PieceMovement::Right],
                vec![PieceMovement::Left, PieceMovement::Left],
                vec![PieceMovement::Right, PieceMovement::Right],
                vec![PieceMovement::Left, PieceMovement::Left, PieceMovement::Left],
                vec![PieceMovement::Right, PieceMovement::Right, PieceMovement::Right],
                vec![PieceMovement::Left, PieceMovement::Left, PieceMovement::Left, PieceMovement::Left],
                vec![PieceMovement::Right, PieceMovement::Right, PieceMovement::Right, PieceMovement::Right],
            ],
        Piece::I => vec![
                vec![],
                vec![PieceMovement::Left],
                vec![PieceMovement::Right],
                vec![PieceMovement::Left, PieceMovement::Left],
                vec![PieceMovement::Right, PieceMovement::Right],
                vec![PieceMovement::Left, PieceMovement::Left, PieceMovement::Left],
                vec![PieceMovement::Right, PieceMovement::Right, PieceMovement::Right],
                vec![PieceMovement::Ccw],
                vec![PieceMovement::Left, PieceMovement::Ccw],
                vec![PieceMovement::Left, PieceMovement::Ccw, PieceMovement::Left],
                vec![PieceMovement::Left, PieceMovement::Ccw, PieceMovement::Left, PieceMovement::Left],
                vec![PieceMovement::Left, PieceMovement::Ccw, PieceMovement::Left, PieceMovement::Left, PieceMovement::Left],
                vec![PieceMovement::Right, PieceMovement::Ccw],
                vec![PieceMovement::Right, PieceMovement::Ccw, PieceMovement::Right],
                vec![PieceMovement::Right, PieceMovement::Ccw, PieceMovement::Right, PieceMovement::Right],
                vec![PieceMovement::Right, PieceMovement::Ccw, PieceMovement::Right, PieceMovement::Right, PieceMovement::Right],
                vec![PieceMovement::Right, PieceMovement::Ccw, PieceMovement::Right, PieceMovement::Right, PieceMovement::Right, PieceMovement::Right],
                vec![PieceMovement::Cw],
                vec![PieceMovement::Left, PieceMovement::Cw],
                vec![PieceMovement::Left, PieceMovement::Cw, PieceMovement::Left],
                vec![PieceMovement::Left, PieceMovement::Cw, PieceMovement::Left, PieceMovement::Left],
                vec![PieceMovement::Left, PieceMovement::Cw, PieceMovement::Left, PieceMovement::Left, PieceMovement::Left],
                vec![PieceMovement::Left, PieceMovement::Cw, PieceMovement::Left, PieceMovement::Left, PieceMovement::Left, PieceMovement::Left],
                vec![PieceMovement::Right, PieceMovement::Cw],
                vec![PieceMovement::Right, PieceMovement::Cw, PieceMovement::Right],
                vec![PieceMovement::Right, PieceMovement::Cw, PieceMovement::Right, PieceMovement::Right],
                vec![PieceMovement::Right, PieceMovement::Cw, PieceMovement::Right, PieceMovement::Right, PieceMovement::Right],
                vec![PieceMovement::Cw, PieceMovement::Cw],
                vec![PieceMovement::Cw, PieceMovement::Left, PieceMovement::Cw],
                vec![PieceMovement::Cw, PieceMovement::Right, PieceMovement::Cw],
                vec![PieceMovement::Cw, PieceMovement::Left, PieceMovement::Cw, PieceMovement::Left],
                vec![PieceMovement::Cw, PieceMovement::Right, PieceMovement::Cw, PieceMovement::Right],
                vec![PieceMovement::Left, PieceMovement::Cw, PieceMovement::Left, PieceMovement::Cw, PieceMovement::Left],
                vec![PieceMovement::Right, PieceMovement::Cw, PieceMovement::Right, PieceMovement::Cw, PieceMovement::Right],
            ],
        _ => vec![
                vec![],
                vec![PieceMovement::Left],
                vec![PieceMovement::Right],
                vec![PieceMovement::Left, PieceMovement::Left],
                vec![PieceMovement::Right, PieceMovement::Right],
                vec![PieceMovement::Left, PieceMovement::Left, PieceMovement::Left],
                vec![PieceMovement::Right, PieceMovement::Right, PieceMovement::Right],
                vec![PieceMovement::Right, PieceMovement::Right, PieceMovement::Right, PieceMovement::Right],
                vec![PieceMovement::Ccw],
                vec![PieceMovement::Left, PieceMovement::Ccw],
                vec![PieceMovement::Right, PieceMovement::Ccw],
                vec![PieceMovement::Left, PieceMovement::Ccw, PieceMovement::Left],
                vec![PieceMovement::Right, PieceMovement::Ccw, PieceMovement::Right],
                vec![PieceMovement::Left, PieceMovement::Ccw, PieceMovement::Left, PieceMovement::Left],
                vec![PieceMovement::Right, PieceMovement::Ccw, PieceMovement::Right, PieceMovement::Right],
                vec![PieceMovement::Right, PieceMovement::Ccw, PieceMovement::Right, PieceMovement::Right, PieceMovement::Right],
                vec![PieceMovement::Right, PieceMovement::Ccw, PieceMovement::Right, PieceMovement::Right, PieceMovement::Right, PieceMovement::Right],
                vec![PieceMovement::Cw],
                vec![PieceMovement::Left, PieceMovement::Cw],
                vec![PieceMovement::Right, PieceMovement::Cw],
                vec![PieceMovement::Left, PieceMovement::Cw, PieceMovement::Left],
                vec![PieceMovement::Right, PieceMovement::Cw, PieceMovement::Right],
                vec![PieceMovement::Left, PieceMovement::Cw, PieceMovement::Left, PieceMovement::Left],
                vec![PieceMovement::Right, PieceMovement::Cw, PieceMovement::Right, PieceMovement::Right],
                vec![PieceMovement::Left, PieceMovement::Cw, PieceMovement::Left, PieceMovement::Left, PieceMovement::Left],
                vec![PieceMovement::Right, PieceMovement::Cw, PieceMovement::Right, PieceMovement::Right, PieceMovement::Right],
                vec![PieceMovement::Cw, PieceMovement::Cw],
                vec![PieceMovement::Cw, PieceMovement::Left, PieceMovement::Cw],
                vec![PieceMovement::Cw, PieceMovement::Right, PieceMovement::Cw],
                vec![PieceMovement::Cw, PieceMovement::Left, PieceMovement::Cw, PieceMovement::Left],
                vec![PieceMovement::Cw, PieceMovement::Right, PieceMovement::Cw, PieceMovement::Right],
                vec![PieceMovement::Left, PieceMovement::Cw, PieceMovement::Left, PieceMovement::Cw, PieceMovement::Left],
                vec![PieceMovement::Right, PieceMovement::Cw, PieceMovement::Right, PieceMovement::Cw, PieceMovement::Right],
                vec![PieceMovement::Right, PieceMovement::Cw, PieceMovement::Right, PieceMovement::Cw, PieceMovement::Right, PieceMovement::Right],
            ],
    };
    v
}

} // verus!
