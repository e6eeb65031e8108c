use vstd::prelude::*;
use std::cmp::Ordering;
use crate::board::{Board, clear_lines, full_rows, lemma_combo_rules, placed_grid};
use crate::dag::{same_location, same_location_exec};
use crate::evaluation::shapes::{lemma_clear_lines_not_full, lemma_piece_clears_at_most_four, no_full_rows, on_field};
use crate::moves::{Move, MovementMode, Placement, SpawnRule};
use crate::piece::{FallingPiece, LockResult, Piece, PieceMovement, placement_kind_spec};
use crate::opener_book::on_field_exec;

verus! {

/// What the perfect-clear loop reports with a move: the depth of its solution and the line it
/// expects to play.
#[derive(Clone, Debug, PartialEq, Eq, Hash)]
pub struct Info {
    pub depth: u32,
    pub plan: Vec<(FallingPiece, LockResult)>,
}

/// What the perfect-clear loop prefers among solutions.
#[derive(Copy, Clone, Debug, PartialEq, Eq, Hash, Structural)]
pub enum PcPriority {
    /// Fewest placements that end in a long delay, then a last placement without one, then
    /// the most attack.
    Fastest,
    /// The most attack, then the fewest long delays, then a last placement without one.
    HighestAttack,
}

/// The score of a perfect-clear solution.
#[derive(Copy, Clone, Debug, PartialEq, Eq, Default, Structural)]
pub struct PcScore {
    pub long_delays: u32,
    pub last_placement_long: bool,
    pub attack: u32,
}

/// `-1`, `0` or `1` as `a` is below, equal to or above `b`.
pub open spec fn sign(a: int, b: int) -> int {
    if a < b {
        -1
    } else if a == b {
        0
    } else {
        1
    }
}

/// `0` for `false`, `1` for `true`.
pub open spec fn bool_rank(b: bool) -> int {
    if b {
        1
    } else {
        0
    }
}

/// The first of `a`, `b`, `c` that is not `0`, or `0`.
pub open spec fn then3(a: int, b: int, c: int) -> int {
    if a != 0 {
        a
    } else if b != 0 {
        b
    } else {
        c
    }
}

/// How two scores compare under a priority: `1` when `lhs` is the better one, `-1` when `rhs` is,
/// `0` when they tie.
pub open spec fn pc_order(p: PcPriority, lhs: PcScore, rhs: PcScore) -> int {
    let delays = -sign(lhs.long_delays as int, rhs.long_delays as int);
    let last = -sign(bool_rank(lhs.last_placement_long), bool_rank(rhs.last_placement_long));
    let attack = sign(lhs.attack as int, rhs.attack as int);
    match p {
        PcPriority::Fastest => then3(delays, last, attack),
        PcPriority::HighestAttack => then3(attack, delays, last),
    }
}

/// Swapping the two scores reverses their comparison, and a score ties with itself.
pub proof fn lemma_pc_order_antisymmetric(p: PcPriority, a: PcScore, b: PcScore)
    ensures
        pc_order(p, a, b) == -pc_order(p, b, a),
        pc_order(p, a, a) == 0,
{
}

/// Under the highest-attack priority the attack decides first (more is better); between equal
/// attacks the number of long delays decides (fewer is better), whatever the last placements;
/// only then a last placement without a long delay is better.
pub proof fn lemma_highest_attack_order(a: PcScore, b: PcScore)
    ensures
        a.attack > b.attack ==> pc_order(PcPriority::HighestAttack, a, b) == 1,
        a.attack < b.attack ==> pc_order(PcPriority::HighestAttack, a, b) == -1,
        a.attack == b.attack && a.long_delays < b.long_delays ==> pc_order(PcPriority::HighestAttack, a, b) == 1,
        a.attack == b.attack && a.long_delays > b.long_delays ==> pc_order(PcPriority::HighestAttack, a, b) == -1,
        a.attack == b.attack && a.long_delays == b.long_delays ==> pc_order(PcPriority::HighestAttack, a, b) == (
            if a.last_placement_long == b.last_placement_long {
                0
            } else if b.last_placement_long {
                1
            } else {
                -1
            }),
{
}

/// Under the fastest priority fewer long delays decide first; then a last placement without a
/// long delay is better; only then more attack is better.
pub proof fn lemma_fastest_order(a: PcScore, b: PcScore)
    ensures
        a.long_delays < b.long_delays ==> pc_order(PcPriority::Fastest, a, b) == 1,
        a.long_delays > b.long_delays ==> pc_order(PcPriority::Fastest, a, b) == -1,
        a.long_delays == b.long_delays && !a.last_placement_long && b.last_placement_long ==> pc_order(PcPriority::Fastest, a, b) == 1,
        a.long_delays == b.long_delays && a.last_placement_long && !b.last_placement_long ==> pc_order(PcPriority::Fastest, a, b) == -1,
        a.long_delays == b.long_delays && a.last_placement_long == b.last_placement_long ==> pc_order(PcPriority::Fastest, a, b) == (
            if a.attack > b.attack {
                1
            } else if a.attack < b.attack {
                -1
            } else {
                0
            }),
{
}

/// `-1`, `0` or `1` as `a` is below, equal to or above `b`.
fn sign_u32(a: u32, b: u32) -> (s: i8)
    ensures
        s as int == sign(a as int, b as int),
{
    if a < b {
        -1
    } else if a == b {
        0
    } else {
        1
    }
}

impl PcPriority {
    /// Compares two solution scores under this priority; `Greater` means `lhs` is preferred.
    pub fn cmp(self, lhs: PcScore, rhs: PcScore) -> (o: Ordering)
        ensures
            (o == Ordering::Greater) == (pc_order(self, lhs, rhs) == 1),
            (o == Ordering::Equal) == (pc_order(self, lhs, rhs) == 0),
            (o == Ordering::Less) == (pc_order(self, lhs, rhs) == -1),
    {
        let delays: i8 = -sign_u32(lhs.long_delays, rhs.long_delays);
        let l: u32 = if lhs.last_placement_long {
            1
        } else {
            0
        };
        let r: u32 = if rhs.last_placement_long {
            1
        } else {
            0
        };
        let last: i8 = -sign_u32(l, r);
        let attack: i8 = sign_u32(lhs.attack, rhs.attack);
        let v: i8 = match self {
            PcPriority::Fastest => if delays != 0 {
                delays
            } else if last != 0 {
                last
            } else {
                attack
            },
            PcPriority::HighestAttack => if attack != 0 {
                attack
            } else if delays != 0 {
                delays
            } else {
                last
            },
        };
        if v < 0 {
            Ordering::Less
        } else if v == 0 {
            Ordering::Equal
        } else {
            Ordering::Greater
        }
    }
}

/// The perfect-clear loop: the moves of the solution being played, with what each lock gives,
/// and the queue and hold after them, from which the next solution is sought.
pub struct PcLooper {
    current_pc: Vec<(Move, LockResult)>,
    abort: bool,
    mode: MovementMode,
    next_pc_queue: Vec<Piece>,
    next_pc_hold: Option<Piece>,
    hold_enabled: bool,
    solving: bool,
    priority: PcPriority,
}

/// A search for the next perfect clear: the pieces it may use, hold first, whether hold may be
/// used, and what it prefers among solutions.
pub struct PcSolver {
    pub queue: Vec<Piece>,
    pub hold_enabled: bool,
    pub priority: PcPriority,
}

/// The pieces a search may use: the held piece, then the queue.
pub open spec fn pc_pieces(hold: Option<Piece>, queue: Seq<Piece>) -> Seq<Piece> {
    match hold {
        Some(h) => seq![h] + queue,
        None => queue,
    }
}

/// Playing piece `p` from hold `hold` and queue `q`: the next piece comes off the queue; when
/// it is not `p`, it goes to hold (and with hold empty, one more piece comes off the queue).
/// The new hold and queue and whether hold was used; `None` when the queue runs out.
pub open spec fn pc_pop(hold: Option<Piece>, q: Seq<Piece>, p: Piece) -> Option<(Option<Piece>, Seq<Piece>, bool)> {
    if q.len() == 0 {
        None
    } else if q[0] == p {
        Some((hold, q.skip(1), false))
    } else if hold is None {
        if q.len() < 2 {
            None
        } else {
            Some((Some(q[0]), q.skip(2), true))
        }
    } else {
        Some((Some(q[0]), q.skip(1), true))
    }
}

/// The hold and queue after the first `n` placements of `s` are played from `hold` and `q`,
/// with whether each used hold; `None` when the queue runs out.
pub open spec fn pc_run(hold: Option<Piece>, q: Seq<Piece>, s: Seq<FallingPiece>, n: int) -> Option<(Option<Piece>, Seq<Piece>, Seq<bool>)>
    decreases n,
{
    if n <= 0 {
        Some((hold, q, Seq::empty()))
    } else {
        match pc_run(hold, q, s, n - 1) {
            None => None,
            Some((h, r, hs)) => match pc_pop(h, r, s[n - 1].kind.0) {
                None => None,
                Some((h2, r2, used)) => Some((h2, r2, hs.push(used))),
            },
        }
    }
}

/// The grid after the first `n` placements of `s` lock one after the other on an empty field.
pub open spec fn pc_grid(s: Seq<FallingPiece>, n: int) -> Seq<Seq<bool>>
    decreases n,
{
    if n <= 0 {
        Seq::new(40, |y: int| Seq::new(10, |x: int| false))
    } else {
        clear_lines(placed_grid(pc_grid(s, n - 1), s[n - 1]))
    }
}

/// `mv` is the quickest of `found` at the location of `target`: among them, none is quicker,
/// and none before it is as quick.
pub open spec fn quickest_at(found: Seq<Placement>, target: FallingPiece, k: int) -> bool {
    &&& 0 <= k < found.len()
    &&& same_location(found[k].location, target)
    &&& forall|j: int| 0 <= j < found.len() && same_location(#[trigger] found[j].location, target) ==> found[k].inputs.time
        <= found[j].inputs.time && (j < k ==> found[k].inputs.time < found[j].inputs.time)
}

/// Step `i` of playing out solution `s` can be planned, as far as the solution and the field
/// decide: the queue suffices, the placement lies on the field, and its piece spawns.
pub open spec fn pc_step_ok(hold: Option<Piece>, q: Seq<Piece>, s: Seq<FallingPiece>, i: int) -> bool {
    &&& pc_run(hold, q, s, i + 1) is Some
    &&& s[i].in_range()
    &&& on_field(s[i])
    &&& forall|b: Board| b.grid() == pc_grid(s, i) ==> #[trigger] SpawnRule::Row19Or20.spawn_spec(s[i].kind.0, b) is Some
}

/// Two lock results say the same.
pub open spec fn same_lock(a: LockResult, b: LockResult) -> bool {
    &&& a.placement_kind == b.placement_kind
    &&& a.locked_out == b.locked_out
    &&& a.garbage_sent == b.garbage_sent
    &&& a.combo == b.combo
    &&& a.b2b == b.b2b
    &&& a.perfect_clear == b.perfect_clear
    &&& a.cleared_lines@ == b.cleared_lines@
}

/// Two moves say the same.
pub open spec fn same_move(a: Move, b: Move) -> bool {
    &&& a.inputs@ == b.inputs@
    &&& a.expected_location == b.expected_location
    &&& a.hold == b.hold
}

/// A copy of `l`.
fn copy_lock(l: &LockResult) -> (c: LockResult)
    ensures
        same_lock(c, *l),
{
    let mut lines: Vec<i32> = Vec::new();
    let mut i: usize = 0;
    while i < l.cleared_lines.len()
        invariant
            i <= l.cleared_lines@.len(),
            lines@ == l.cleared_lines@.take(i as int),
        decreases l.cleared_lines@.len() - i,
    {
        lines.push(l.cleared_lines[i]);
        i = i + 1;
        proof {
            assert(lines@ =~= l.cleared_lines@.take(i as int));
        }
    }
    assert(lines@ =~= l.cleared_lines@);
    LockResult {
        placement_kind: l.placement_kind,
        locked_out: l.locked_out,
        garbage_sent: l.garbage_sent,
        combo: l.combo,
        b2b: l.b2b,
        perfect_clear: l.perfect_clear,
        cleared_lines: lines,
    }
}

/// A copy of the movements `v`.
pub(crate) fn copy_movements(v: &Vec<PieceMovement>) -> (c: Vec<PieceMovement>)
    ensures
        c@ == v@,
{
    let mut out: Vec<PieceMovement> = Vec::new();
    let mut i: usize = 0;
    while i < v.len()
        invariant
            i <= v@.len(),
            out@ == v@.take(i as int),
        decreases v@.len() - i,
    {
        out.push(v[i]);
        i = i + 1;
        proof {
            assert(out@ =~= v@.take(i as int));
        }
    }
    assert(out@ =~= v@);
    out
}

/// At step `i` of playing out solution `s`, the movement search `find_moves`, asked on a board
/// with the field of that step, found no placement at the location of `s[i]`.
pub open spec fn pc_no_move<M: Fn(&Board, FallingPiece, MovementMode) -> Vec<Placement>>(
    find_moves: M,
    mode: MovementMode,
    s: Seq<FallingPiece>,
    i: int,
) -> bool {
    exists|b: Board, sp: FallingPiece, found: Vec<Placement>|
        #![trigger call_ensures(find_moves, (&b, sp, mode), found)]
        b.grid() == pc_grid(s, i) && SpawnRule::Row19Or20.spawn_spec(s[i].kind.0, b) == Some(sp) && call_ensures(
            find_moves,
            (&b, sp, mode),
            found,
        ) && forall|j: int| 0 <= j < found@.len() ==> !same_location(#[trigger] found@[j].location, s[i])
}

/// Move `mv` plays step `i` of solution `s`: it is the quickest placement at the location of
/// `s[i]` that `find_moves` found on a board with the field of that step, it holds first as
/// `used` says, and `l` tells what locking `s[i]` on that field does.
pub open spec fn pc_planned<M: Fn(&Board, FallingPiece, MovementMode) -> Vec<Placement>>(
    find_moves: M,
    mode: MovementMode,
    s: Seq<FallingPiece>,
    i: int,
    used: bool,
    mv: Move,
    l: LockResult,
) -> bool {
    let placed = placed_grid(pc_grid(s, i), s[i]);
    &&& exists|b: Board, sp: FallingPiece, found: Vec<Placement>, k: int|
        #![trigger call_ensures(find_moves, (&b, sp, mode), found), quickest_at(found@, s[i], k)]
        {
            &&& b.grid() == pc_grid(s, i)
            &&& SpawnRule::Row19Or20.spawn_spec(s[i].kind.0, b) == Some(sp)
            &&& call_ensures(find_moves, (&b, sp, mode), found)
            &&& quickest_at(found@, s[i], k)
            &&& mv.expected_location == found@[k].location
            &&& mv.inputs@ == found@[k].inputs.movements@
        }
    &&& mv.hold == used
    &&& l.placement_kind == placement_kind_spec(full_rows(placed, 40).len() as int, s[i].tspin)
    &&& l.cleared_lines@.len() == full_rows(placed, 40).len()
    &&& l.locked_out == (forall|c: int| 0 <= c < 4 ==> #[trigger] s[i].cell(c).1 >= 20)
}

/// The movement search `find_moves` gives the same placements on boards with the same field.
pub open spec fn search_by_field<M: Fn(&Board, FallingPiece, MovementMode) -> Vec<Placement>>(find_moves: M) -> bool {
    forall|b1: Board, b2: Board, p: FallingPiece, m: MovementMode, r1: Vec<Placement>, r2: Vec<Placement>|
        #![trigger call_ensures(find_moves, (&b1, p, m), r1), call_ensures(find_moves, (&b2, p, m), r2)]
        b1.grid() == b2.grid() && call_ensures(find_moves, (&b1, p, m), r1) && call_ensures(find_moves, (&b2, p, m), r2)
            ==> r1@ == r2@
}

/// With a search that depends on the field alone, a step where the search found no placement
/// at the location of the solution's placement is not a step that was planned.
pub proof fn lemma_no_move_not_planned<M: Fn(&Board, FallingPiece, MovementMode) -> Vec<Placement>>(
    find_moves: M,
    mode: MovementMode,
    s: Seq<FallingPiece>,
    i: int,
    used: bool,
    mv: Move,
    l: LockResult,
)
    requires
        search_by_field(find_moves),
        pc_no_move(find_moves, mode, s, i),
    ensures
        !pc_planned(find_moves, mode, s, i, used, mv, l),
{
    if pc_planned(find_moves, mode, s, i, used, mv, l) {
        let (b1, sp1, f1) = choose|b: Board, sp: FallingPiece, found: Vec<Placement>|
            b.grid() == pc_grid(s, i) && SpawnRule::Row19Or20.spawn_spec(s[i].kind.0, b) == Some(sp) && call_ensures(
                find_moves,
                (&b, sp, mode),
                found,
            ) && forall|j: int| 0 <= j < found@.len() ==> !same_location(#[trigger] found@[j].location, s[i]);
        let (b2, sp2, f2, k) = choose|b: Board, sp: FallingPiece, found: Vec<Placement>, k: int|
            #![trigger call_ensures(find_moves, (&b, sp, mode), found), quickest_at(found@, s[i], k)]
            {
                &&& b.grid() == pc_grid(s, i)
                &&& SpawnRule::Row19Or20.spawn_spec(s[i].kind.0, b) == Some(sp)
                &&& call_ensures(find_moves, (&b, sp, mode), found)
                &&& quickest_at(found@, s[i], k)
                &&& mv.expected_location == found@[k].location
                &&& mv.inputs@ == found@[k].inputs.movements@
            };
        assert(sp1 == sp2);
        assert(f1@ == f2@);
        assert(same_location(f2@[k].location, s[i]));
        assert(!same_location(f1@[k].location, s[i]));
    }
}

/// Playing out `s` stopped at step `i`: the steps before it could be planned, and this one
/// could not.
pub open spec fn pc_stopped<M: Fn(&Board, FallingPiece, MovementMode) -> Vec<Placement>>(
    hold: Option<Piece>,
    q: Seq<Piece>,
    s: Seq<FallingPiece>,
    find_moves: M,
    mode: MovementMode,
) -> bool {
    exists|i: int|
        0 <= i < s.len() && (forall|j: int| 0 <= j < i ==> #[trigger] pc_step_ok(hold, q, s, j)) && (!#[trigger] pc_step_ok(
            hold,
            q,
            s,
            i,
        ) || pc_no_move(find_moves, mode, s, i))
}

proof fn lemma_stopped<M: Fn(&Board, FallingPiece, MovementMode) -> Vec<Placement>>(
    hold: Option<Piece>,
    q: Seq<Piece>,
    s: Seq<FallingPiece>,
    find_moves: M,
    mode: MovementMode,
    i: int,
)
    requires
        0 <= i < s.len(),
        forall|j: int| 0 <= j < i ==> #[trigger] pc_step_ok(hold, q, s, j),
        !pc_step_ok(hold, q, s, i) || pc_no_move(find_moves, mode, s, i),
    ensures
        pc_stopped(hold, q, s, find_moves, mode),
{
    assert(pc_step_ok(hold, q, s, i) || !pc_step_ok(hold, q, s, i));
}

impl PcLooper {
    /// The moves of the solution being played, with their locks.
    pub closed spec fn plan(&self) -> Seq<(Move, LockResult)> {
        self.current_pc@
    }

    /// The queue after the solution being played.
    pub closed spec fn queue(&self) -> Seq<Piece> {
        self.next_pc_queue@
    }

    /// The held piece after the solution being played.
    pub closed spec fn hold(&self) -> Option<Piece> {
        self.next_pc_hold
    }

    /// A search is running.
    pub closed spec fn is_solving(&self) -> bool {
        self.solving
    }

    /// The running search was asked to stop.
    pub closed spec fn aborted(&self) -> bool {
        self.abort
    }

    /// Whether hold may be used, the movement mode and the priority.
    pub closed spec fn settings(&self) -> (bool, MovementMode, PcPriority) {
        (self.hold_enabled, self.mode, self.priority)
    }

    /// Starts the loop on `board`: nothing planned, its queue, and its held piece when hold may
    /// be used.
    pub fn new(board: &Board, hold_enabled: bool, mode: MovementMode, priority: PcPriority) -> (l: PcLooper)
        ensures
            l.plan().len() == 0,
            l.queue() == board.queue(),
            l.hold() == (if hold_enabled {
                board.hold_of()
            } else {
                None::<Piece>
            }),
            !l.is_solving(),
            !l.aborted(),
            l.settings() == (hold_enabled, mode, priority),
    {
        PcLooper {
            current_pc: Vec::new(),
            abort: false,
            mode,
            next_pc_queue: board.next_queue(),
            next_pc_hold: if hold_enabled {
                board.held_piece()
            } else {
                None
            },
            hold_enabled,
            solving: false,
            priority,
        }
    }

    /// Starts a search when none runs and enough pieces are known: eleven, or ten without hold.
    /// The search gets the held piece and the queue, at most eleven pieces.
    pub fn think(&mut self) -> (r: Option<PcSolver>)
        ensures
            ({
                let pieces = pc_pieces(old(self).hold(), old(self).queue());
                let n = if pieces.len() < 11 {
                    pieces.len()
                } else {
                    11
                };
                let go = !old(self).is_solving() && ((!old(self).settings().0 && n >= 10) || n >= 11);
                &&& go ==> (r matches Some(sv) && sv.queue@ == pieces.take(n as int) && sv.hold_enabled
                    == old(self).settings().0 && sv.priority == old(self).settings().2
                    && final(self).is_solving())
                &&& !go ==> r is None && final(self).is_solving() == old(self).is_solving()
                &&& final(self).plan() == old(self).plan()
                &&& final(self).queue() == old(self).queue()
                &&& final(self).hold() == old(self).hold()
                &&& final(self).aborted() == old(self).aborted()
                &&& final(self).settings() == old(self).settings()
            }),
    {
        if self.solving {
            return None;
        }
        let ghost pieces = pc_pieces(self.next_pc_hold, self.next_pc_queue@);
        let mut queue: Vec<Piece> = Vec::new();
        match self.next_pc_hold {
            Some(h) => queue.push(h),
            None => {},
        }
        let mut i: usize = 0;
        while i < self.next_pc_queue.len() && queue.len() < 11
            invariant
                i <= self.next_pc_queue@.len(),
                pieces == pc_pieces(self.next_pc_hold, self.next_pc_queue@),
                queue@.len() <= 11,
                queue@ == pieces.take(queue@.len() as int),
                queue@.len() == i + (if self.next_pc_hold is Some { 1int } else { 0 }),
            decreases self.next_pc_queue@.len() - i,
        {
            queue.push(self.next_pc_queue[i]);
            i = i + 1;
            proof {
                assert(queue@ =~= pieces.take(queue@.len() as int));
            }
        }
        if !self.hold_enabled && queue.len() >= 10 || queue.len() >= 11 {
            self.solving = true;
            Some(PcSolver { queue, hold_enabled: self.hold_enabled, priority: self.priority })
        } else {
            None
        }
    }

    /// The next move of the solution being played, with the depth of the solution and the
    /// placements it expects, or, with no solution to play, a request that the running search
    /// stop and whether no search runs.
    pub fn suggest_move(&mut self) -> (r: Result<(Move, Info), bool>)
        requires
            old(self).plan().len() < u32::MAX,
        ensures
            old(self).plan().len() > 0 ==> (r matches Ok((mv, info)) && same_move(mv, old(self).plan()[0].0)
                && info.depth == old(self).plan().len() + 1 && info.plan@.len() == old(self).plan().len()
                && (forall|i: int| 0 <= i < info.plan@.len() ==> (#[trigger] info.plan@[i]).0
                    == old(self).plan()[i].0.expected_location && same_lock(info.plan@[i].1, old(self).plan()[i].1))
                && *final(self) == *old(self)),
            old(self).plan().len() == 0 ==> r == Err::<(Move, Info), bool>(!old(self).is_solving())
                && final(self).aborted() && final(self).plan() == old(self).plan() && final(self).queue()
                == old(self).queue() && final(self).hold() == old(self).hold() && final(self).is_solving()
                == old(self).is_solving() && final(self).settings() == old(self).settings(),
    {
        if self.current_pc.len() == 0 {
            self.abort = true;
            return Err(!self.solving);
        }
        let n = self.current_pc.len();
        let mut plan: Vec<(FallingPiece, LockResult)> = Vec::new();
        let mut i: usize = 0;
        while i < n
            invariant
                i <= n,
                n == self.current_pc@.len(),
                plan@.len() == i,
                forall|k: int| 0 <= k < i ==> (#[trigger] plan@[k]).0 == self.current_pc@[k].0.expected_location
                    && same_lock(plan@[k].1, self.current_pc@[k].1),
            decreases n - i,
        {
            let (mv, lock) = &self.current_pc[i];
            plan.push((mv.expected_location, copy_lock(lock)));
            i = i + 1;
        }
        let first = &self.current_pc[0].0;
        let mv = Move { inputs: copy_movements(&first.inputs), expected_location: first.expected_location, hold: first.hold };
        Ok((mv, Info { depth: n as u32 + 1, plan }))
    }

    /// Plays `mv`: takes the next move of the solution; whether it was at `mv`'s location and
    /// the loop goes on, with more of the solution to play or a search running.
    pub fn play_move(&mut self, mv: FallingPiece) -> (ok: bool)
        ensures
            old(self).plan().len() == 0 ==> !ok && *final(self) == *old(self),
            old(self).plan().len() > 0 ==> {
                &&& final(self).plan() == old(self).plan().skip(1)
                &&& ok == (same_location(old(self).plan()[0].0.expected_location, mv) && (old(self).plan().len() > 1
                    || old(self).is_solving()))
            },
            final(self).queue() == old(self).queue(),
            final(self).hold() == old(self).hold(),
            final(self).is_solving() == old(self).is_solving(),
            final(self).aborted() == old(self).aborted(),
            final(self).settings() == old(self).settings(),
    {
        if self.current_pc.len() == 0 {
            return false;
        }
        let (first, _) = self.current_pc.remove(0);
        if same_location_exec(&first.expected_location, &mv) {
            self.current_pc.len() > 0 || self.solving
        } else {
            false
        }
    }

    /// Takes the result of a search. A solution is played out on an empty field: for each of
    /// its placements, the quickest placement at its location that `find_moves` finds is the
    /// move, holding first when the next piece is another one, and the placement locks. When
    /// every placement gets its move, the moves join the solution being played and the queue and
    /// hold move on; otherwise nothing is kept: where a placement has no move, and where the
    /// queue runs out, the placement lies off the field or its piece cannot spawn.
    pub fn solution<M: Fn(&Board, FallingPiece, MovementMode) -> Vec<Placement>>(
        &mut self,
        soln: Option<Vec<FallingPiece>>,
        find_moves: &M,
    )
        requires
            forall|b: Board, p: FallingPiece, m: MovementMode| #[trigger] find_moves.requires((&b, p, m)),
            search_by_field(*find_moves),
            soln matches Some(s) ==> s@.len() <= 10,
        ensures
            !final(self).is_solving(),
            !final(self).aborted(),
            final(self).settings() == old(self).settings(),
            soln is None ==> final(self).plan() == old(self).plan() && final(self).queue() == old(self).queue()
                && final(self).hold() == old(self).hold(),
            soln matches Some(s) ==> {
                let mode = old(self).settings().1;
                let n = old(self).plan().len();
                ||| {
                    &&& final(self).plan() == old(self).plan()
                    &&& final(self).queue() == old(self).queue()
                    &&& final(self).hold() == old(self).hold()
                    &&& pc_stopped(old(self).hold(), old(self).queue(), s@, *find_moves, mode)
                }
                ||| {
                    &&& pc_run(old(self).hold(), old(self).queue(), s@, s@.len() as int) matches Some((h, q, hs))
                    &&& final(self).queue() == q
                    &&& final(self).hold() == h
                    &&& final(self).plan().len() == n + s@.len()
                    &&& final(self).plan().take(n as int) == old(self).plan()
                    &&& forall|i: int| 0 <= i < s@.len() ==> pc_planned(*find_moves, mode, s@, i, hs[i],
                        #[trigger] final(self).plan()[n + i].0, final(self).plan()[n + i].1)
                }
            },
    {
        self.solving = false;
        self.abort = false;
        let s = match &soln {
            None => {
                return;
            },
            Some(s) => s,
        };
        let ghost h0 = self.next_pc_hold;
        let ghost q0 = self.next_pc_queue@;
        assert(old(self).hold() == h0 && old(self).queue() == q0);
        let mut b: Board = Board::new();
        proof {
            b.lemma_inv();
            assert forall|y: int| 0 <= y < 40 implies #[trigger] b.grid()[y] =~= pc_grid(s@, 0)[y] by {
                assert forall|x: int| 0 <= x < 10 implies b.grid()[y][x] == pc_grid(s@, 0)[y][x] by {
                    assert(!b.grid()[y][x]);
                }
            }
            assert(b.grid() =~= pc_grid(s@, 0));
            assert forall|y: int| 0 <= y < 40 implies !crate::board::row_full(#[trigger] b.grid()[y]) by {
                assert(!b.grid()[y][0]);
            }
        }
        let mut planned: Vec<(Move, LockResult)> = Vec::new();
        let mut hold = self.next_pc_hold;
        let mut queue: Vec<Piece> = Vec::new();
        let mut c: usize = 0;
        while c < self.next_pc_queue.len()
            invariant
                c <= self.next_pc_queue@.len(),
                queue@ == self.next_pc_queue@.take(c as int),
            decreases self.next_pc_queue@.len() - c,
        {
            queue.push(self.next_pc_queue[c]);
            c = c + 1;
            proof {
                assert(queue@ =~= self.next_pc_queue@.take(c as int));
            }
        }
        assert(queue@ =~= q0);
        let mode = self.mode;
        let mut i: usize = 0;
        while i < s.len()
            invariant
                i <= s@.len(),
                forall|bb: Board, p: FallingPiece, m: MovementMode| #[trigger] find_moves.requires((&bb, p, m)),
                b.wf(),
                b.grid() == pc_grid(s@, i as int),
                no_full_rows(b.grid()),
                b.combo_of() <= i,
                pc_run(h0, q0, s@, i as int) == Some((hold, queue@, Seq::new(i as nat, |k: int| planned@[k].0.hold))),
                planned@.len() == i,
                forall|j: int| 0 <= j < i ==> #[trigger] pc_step_ok(h0, q0, s@, j),
                forall|j: int| 0 <= j < i ==> pc_planned(*find_moves, mode, s@, j, planned@[j].0.hold,
                    #[trigger] planned@[j].0, planned@[j].1),
                !self.solving,
                !self.abort,
                self.mode == mode,
                self.next_pc_hold == h0,
                self.next_pc_queue@ == q0,
                self.current_pc@ == old(self).current_pc@,
                self.hold_enabled == old(self).hold_enabled,
                self.priority == old(self).priority,
                old(self).mode == mode,
                old(self).next_pc_hold == h0,
                old(self).next_pc_queue@ == q0,
                s@.len() <= 10,
                soln == Some(*s),
            decreases s@.len() - i,
        {
            let placement = s[i];
            let ghost gi = b.grid();
            let in_range = i32::MIN + 2 <= placement.x && placement.x <= i32::MAX - 2 && i32::MIN + 3 <= placement.y
                && placement.y <= i32::MAX - 3;
            if !in_range {
                proof {
                    assert(!pc_step_ok(h0, q0, s@, i as int));
                    lemma_stopped(h0, q0, s@, *find_moves, mode, i as int);
                }
                return;
            }
            if !on_field_exec(&placement) {
                proof {
                    assert(!pc_step_ok(h0, q0, s@, i as int));
                    lemma_stopped(h0, q0, s@, *find_moves, mode, i as int);
                }
                return;
            }
            let spawned = match SpawnRule::Row19Or20.spawn(placement.kind.0, &b) {
                None => {
                    proof {
                        assert(SpawnRule::Row19Or20.spawn_spec(s@[i as int].kind.0, b) is None);
                        assert(!pc_step_ok(h0, q0, s@, i as int));
                    lemma_stopped(h0, q0, s@, *find_moves, mode, i as int);
                    }
                    return;
                },
                Some(p) => p,
            };
            let found = find_moves(&b, spawned, mode);
            let mut best: Option<usize> = None;
            let mut j: usize = 0;
            while j < found.len()
                invariant
                    j <= found@.len(),
                    best is None ==> forall|t: int| 0 <= t < j ==> !same_location(#[trigger] found@[t].location, placement),
                    best matches Some(k) ==> k < j && same_location(found@[k as int].location, placement) && forall|t: int|
                        0 <= t < j && same_location(#[trigger] found@[t].location, placement) ==> found@[k as int].inputs.time
                            <= found@[t].inputs.time && (t < k ==> found@[k as int].inputs.time < found@[t].inputs.time),
                decreases found@.len() - j,
            {
                if same_location_exec(&found[j].location, &placement) {
                    match best {
                        None => {
                            best = Some(j);
                        },
                        Some(k) => {
                            if found[j].inputs.time < found[k].inputs.time {
                                best = Some(j);
                            }
                        },
                    }
                }
                j = j + 1;
            }
            let k = match best {
                None => {
                    proof {
                        assert(pc_no_move(*find_moves, mode, s@, i as int)) by {
                            assert(call_ensures(*find_moves, (&b, spawned, mode), found));
                        }
                    lemma_stopped(h0, q0, s@, *find_moves, mode, i as int);
                    }
                    return;
                },
                Some(k) => k,
            };
            proof {
                assert(quickest_at(found@, s@[i as int], k as int));
            }
            let inputs = copy_movements(&found[k].inputs.movements);
            let location = found[k].location;
            let ghost qi = queue@;
            let ghost hi = hold;
            if queue.len() == 0 {
                proof {
                    assert(pc_pop(hi, qi, s@[i as int].kind.0) is None);
                    assert(!pc_step_ok(h0, q0, s@, i as int));
                    lemma_stopped(h0, q0, s@, *find_moves, mode, i as int);
                }
                return;
            }
            let next = queue.remove(0);
            let mut used = false;
            if next != placement.kind.0 {
                if hold.is_none() {
                    if queue.len() == 0 {
                        proof {
                            assert(pc_pop(hi, qi, s@[i as int].kind.0) is None);
                            assert(!pc_step_ok(h0, q0, s@, i as int));
                    lemma_stopped(h0, q0, s@, *find_moves, mode, i as int);
                        }
                        return;
                    }
                    let _ = queue.remove(0);
                }
                hold = Some(next);
                used = true;
            }
            proof {
                assert(pc_pop(hi, qi, s@[i as int].kind.0) == Some((hold, queue@, used)));
                assert(pc_step_ok(h0, q0, s@, i as int));
                b.lemma_inv();
                lemma_piece_clears_at_most_four(gi, placement);
            }
            let ghost b0 = b;
            let lock = b.lock_piece(placement);
            proof {
                lemma_combo_rules(lock.placement_kind, b0.b2b_of(), b0.combo_of(), lock.perfect_clear);
                lemma_clear_lines_not_full(placed_grid(gi, placement));
            }
            planned.push((Move { inputs, expected_location: location, hold: used }, lock));
            i = i + 1;
        }
        let ghost before = self.current_pc@;
        let ghost added = planned@;
        self.current_pc.append(&mut planned);
        proof {
            assert(self.current_pc@.take(before.len() as int) =~= before);
            assert forall|k: int| 0 <= k < added.len() implies #[trigger] self.current_pc@[before.len() + k] == added[k] by {
            }
            assert(Seq::new(added.len(), |k: int| added[k].0.hold) =~= Seq::new(s@.len(), |k: int| added[k].0.hold));
        }
        self.next_pc_queue = queue;
        self.next_pc_hold = hold;
    }

    /// Adds a piece to the end of the queue.
    pub fn add_next_piece(&mut self, piece: Piece)
        ensures
            final(self).queue() == old(self).queue().push(piece),
            final(self).plan() == old(self).plan(),
            final(self).hold() == old(self).hold(),
            final(self).is_solving() == old(self).is_solving(),
            final(self).aborted() == old(self).aborted(),
            final(self).settings() == old(self).settings(),
    {
        self.next_pc_queue.push(piece);
    }
}

} // verus!
