use vstd::prelude::*;
use crate::board::{Board, collides_g, occ_grid};
use crate::config::GameConfig;
use crate::controller::Controller;
use crate::executor::Event;
use crate::game::{FallingState, GameState, GarbageCounters, InputState, input_spec, wait_spec, wait_frame, after_lock, after_lock_spec};
use crate::board::{clear_lines, full_rows, placed_grid};
use crate::moves::SpawnRule;
use crate::piece::LockResult;
use crate::evaluation::shapes::no_full_rows;
use crate::piece_set::PieceSet;
use rand_pcg::Mcg128Xsl64;
use crate::moves::{dropped, lemma_input_fits};
use crate::piece::{FallingPiece, Piece, PieceMovement, TspinStatus};
use crate::rotation::apply_spec;

verus! {

/// How a frame of a falling piece ends.
#[derive(Copy, Clone, Debug, PartialEq, Eq, Structural)]
pub enum FrameEnd {
    /// The piece goes on falling.
    Falling,
    /// The piece locks where the state now has it; a hard drop gives the rows it fell.
    Lock(Option<i32>),
}

/// Some cell directly below a cell of the piece is filled or off the playfield.
pub open spec fn resting(g: Seq<Seq<bool>>, p: FallingPiece) -> bool {
    exists|i: int| 0 <= i < 4 && #[trigger] occ_grid(g, p.cell(i).0, p.cell(i).1 - 1)
}

/// The piece moved by `(dx, dy)` where it fits there, or `None`.
pub open spec fn shifted(g: Seq<Seq<bool>>, p: FallingPiece, dx: int, dy: int) -> Option<FallingPiece> {
    if !collides_g(g, p, dx, dy) {
        Some(FallingPiece { tspin: TspinStatus::NoSpin, ..p.moved(dx, dy) })
    } else {
        None
    }
}

/// The piece one row lower where it fits there, or where it is.
pub open spec fn fallen(g: Seq<Seq<bool>>, p: FallingPiece) -> FallingPiece {
    match shifted(g, p, 0, -1) {
        Some(q) => q,
        None => p,
    }
}

/// The lowest row of the piece's cells.
pub open spec fn low_row(p: FallingPiece) -> int {
    let a = p.cell(0).1;
    let b = p.cell(1).1;
    let c = p.cell(2).1;
    let d = p.cell(3).1;
    let ab = if a < b { a } else { b };
    let cd = if c < d { c } else { d };
    if ab < cd { ab } else { cd }
}

/// A turn pressed (clockwise when `cw`): where it lands, the press is spent, the move counts
/// and the lock delay restarts, and the frame reports a spin or a plain turn.
pub open spec fn turn_step(g: Seq<Seq<bool>>, s: FallingState, used: Controller, cw: bool, config: GameConfig) -> (FallingState, Controller, Seq<Event>) {
    let pressed = if cw { used.rotate_right } else { used.rotate_left };
    let m = if cw { PieceMovement::Cw } else { PieceMovement::Ccw };
    if !pressed {
        (s, used, Seq::empty())
    } else {
        match apply_spec(g, m, s.piece) {
            None => (s, used, Seq::empty()),
            Some(q) => (
                FallingState {
                    piece: q,
                    rotation_move_count: (s.rotation_move_count + 1) as u32,
                    lock_delay: config.lock_delay,
                    ..s
                },
                if cw {
                    Controller { rotate_right: false, ..used }
                } else {
                    Controller { rotate_left: false, ..used }
                },
                seq![if q.tspin != TspinStatus::NoSpin {
                    Event::PieceTSpined
                } else {
                    Event::PieceRotated
                }],
            ),
        }
    }
}

/// Shifting by `dx` as far as it goes, at most `fuel` times, when `cont`, and once otherwise:
/// where the piece ends and how many times it moved.
pub open spec fn slide(g: Seq<Seq<bool>>, p: FallingPiece, dx: int, cont: bool, fuel: nat) -> (FallingPiece, nat)
    decreases fuel,
{
    if fuel == 0 {
        (p, 0)
    } else {
        match shifted(g, p, dx, 0) {
            None => (p, 0),
            Some(q) => if cont {
                let r = slide(g, q, dx, cont, (fuel - 1) as nat);
                (r.0, r.1 + 1)
            } else {
                (q, 1)
            },
        }
    }
}

/// A shift pressed (by `dx`, with auto-shift counter `das`): the piece moves once, or as far
/// as it goes when the repeat rate and the counter are both zero; each move counts, restarts
/// the lock delay and is reported, and the press stays only for an instant repeat.
pub open spec fn shift_step(g: Seq<Seq<bool>>, s: FallingState, pressed: bool, dx: int, das: u32, config: GameConfig) -> (FallingState, bool, Seq<Event>) {
    let cont = config.auto_repeat_rate == 0 && das == 0;
    let r = slide(g, s.piece, dx, cont, 10);
    if !pressed || r.1 == 0 {
        (s, pressed, Seq::empty())
    } else {
        (
            FallingState {
                piece: r.0,
                rotation_move_count: (s.rotation_move_count + r.1) as u32,
                lock_delay: config.lock_delay,
                ..s
            },
            cont,
            Seq::new(r.1, |i: int| Event::PieceMoved),
        )
    }
}

/// A piece that fits has its center on the playfield.
proof fn lemma_fits_center(g: Seq<Seq<bool>>, p: FallingPiece)
    requires
        !collides_g(g, p, 0, 0),
    ensures
        0 <= p.x < 10,
        0 <= p.y < 40,
        p.in_range(),
        crate::rotation::near_field(p),
{
    crate::piece::lemma_center(p.kind);
    let c = crate::piece::center_index(p.kind.0);
    assert(p.cell(c) == (p.x as int, p.y as int));
    assert(!occ_grid(g, p.cell(c).0 + 0, p.cell(c).1 + 0));
}

/// A piece moved where it fits fits.
proof fn lemma_shifted_fits(g: Seq<Seq<bool>>, p: FallingPiece, dx: int, dy: int)
    requires
        !collides_g(g, p, 0, 0),
        -1 <= dx <= 1,
        -1 <= dy <= 1,
    ensures
        shifted(g, p, dx, dy) matches Some(q) ==> !collides_g(g, q, 0, 0) && q.kind == p.kind && q.x == p.x + dx
            && q.y == p.y + dy,
{
    lemma_fits_center(g, p);
    if let Some(q) = shifted(g, p, dx, dy) {
        if collides_g(g, q, 0, 0) {
            let i = choose|i: int| 0 <= i < 4 && #[trigger] occ_grid(g, q.cell(i).0 + 0, q.cell(i).1 + 0);
            assert(occ_grid(g, p.cell(i).0 + dx, p.cell(i).1 + dy));
        }
    }
}

/// Carries out a pressed turn, as `turn_step` says.
fn turn_frame(board: &Board, s: &mut FallingState, used: &mut Controller, cw: bool, config: &GameConfig) -> (e: Vec<Event>)
    requires
        board.inv(),
        !collides_g(board.grid(), old(s).piece, 0, 0),
        old(s).rotation_move_count < u32::MAX,
    ensures
        (*final(s), *final(used), e@) == turn_step(board.grid(), *old(s), *old(used), cw, *config),
        !collides_g(board.grid(), final(s).piece, 0, 0),
{
    let mut events: Vec<Event> = Vec::new();
    let pressed = if cw { used.rotate_right } else { used.rotate_left };
    if !pressed {
        return events;
    }
    let m = if cw { PieceMovement::Cw } else { PieceMovement::Ccw };
    let mut p = s.piece;
    proof {
        lemma_fits_center(board.grid(), p);
        lemma_input_fits(board.grid(), m, p);
    }
    if m.apply(&mut p, board) {
        s.piece = p;
        s.rotation_move_count = s.rotation_move_count + 1;
        s.lock_delay = config.lock_delay;
        if cw {
            used.rotate_right = false;
        } else {
            used.rotate_left = false;
        }
        if p.tspin != TspinStatus::NoSpin {
            events.push(Event::PieceTSpined);
        } else {
            events.push(Event::PieceRotated);
        }
    }
    events
}

/// Carries out a pressed shift, as `shift_step` says.
fn shift_frame(board: &Board, s: &mut FallingState, pressed: &mut bool, dx: i32, das: u32, config: &GameConfig) -> (e: Vec<Event>)
    requires
        board.inv(),
        !collides_g(board.grid(), old(s).piece, 0, 0),
        dx == -1 || dx == 1,
        old(s).rotation_move_count <= u32::MAX - 10,
    ensures
        (*final(s), *final(pressed), e@) == shift_step(board.grid(), *old(s), *old(pressed), dx as int, das, *config),
        !collides_g(board.grid(), final(s).piece, 0, 0),
        final(s).rotation_move_count <= old(s).rotation_move_count + 10,
{
    let ghost g = board.grid();
    let ghost s0 = *s;
    let ghost cont = config.auto_repeat_rate == 0 && das == 0;
    let mut events: Vec<Event> = Vec::new();
    let mut piece = s.piece;
    let mut k: u32 = 0;
    let x0 = piece.x;
    proof {
        lemma_fits_center(g, piece);
    }
    let mut go = *pressed;
    let ghost mut blocked = false;
    while go
        invariant
            go ==> *pressed,
            !go ==> blocked || !*pressed,
            blocked ==> !go && shifted(g, piece, dx as int, 0) is None,
            board.inv(),
            g == board.grid(),
            !collides_g(g, piece, 0, 0),
            0 <= x0 < 10,
            dx == 1 ==> piece.x == x0 + k,
            dx == -1 ==> piece.x == x0 - k,
            k <= 10,
            dx == -1 || dx == 1,
            cont == (config.auto_repeat_rate == 0 && das == 0),
            *old(pressed) || k == 0,
            k > 0 ==> *pressed == cont,
            k == 0 ==> *pressed == *old(pressed),
            !*old(pressed) ==> !*pressed,
            cont || k == 0 ==> slide(g, s0.piece, dx as int, cont, 10) == (
                slide(g, piece, dx as int, cont, (10 - k) as nat).0,
                (slide(g, piece, dx as int, cont, (10 - k) as nat).1 + k) as nat,
            ),
            !cont && k > 0 ==> k == 1 && slide(g, s0.piece, dx as int, cont, 10) == (piece, 1nat),
            events@ == Seq::new(k as nat, |i: int| Event::PieceMoved),
            s0 == *old(s),
            *s == s0,
        decreases 10 - k + if go { 1int } else { 0 },
    {
        proof {
            lemma_fits_center(g, piece);
            lemma_shifted_fits(g, piece, dx as int, 0);
            if k >= 10 {
                assert(false);
            }
        }
        if piece.shift(board, dx, 0) {
            proof {
                lemma_fits_center(g, piece);
            }
            *pressed = config.auto_repeat_rate == 0 && das == 0;
            go = *pressed;
            events.push(Event::PieceMoved);
            k = k + 1;
            assert(events@ =~= Seq::new(k as nat, |i: int| Event::PieceMoved));
        } else {
            go = false;
            proof {
                blocked = true;
            }
        }
    }
    proof {
        if blocked && (cont || k == 0) {
            assert(slide(g, piece, dx as int, cont, (10 - k) as nat) == (piece, 0nat));
        }
        if k == 0 {
            assert(events@ =~= Seq::<Event>::empty());
        }
        let r = slide(g, s0.piece, dx as int, cont, 10);
        if *old(pressed) && k > 0 {
            assert(r.0 == piece && r.1 == k);
        }
        if *old(pressed) && k == 0 {
            assert(blocked);
            assert((10 - k) as nat == 10nat);
            assert(slide(g, piece, dx as int, cont, 10) == (piece, 0nat));
            assert(r.1 == 0);
        }
    }
    if k > 0 {
        s.piece = piece;
        s.rotation_move_count = s.rotation_move_count + k;
        s.lock_delay = config.lock_delay;
    }
    events
}


/// Gravity over a frame: the counter `grav` gains `step` and the piece falls a row (where it
/// can) for each time it was below zero.
pub open spec fn gravity_fall(g: Seq<Seq<bool>>, p: FallingPiece, grav: int, step: int) -> (FallingPiece, int)
    decreases (if grav < 0 { -grav } else { 0 }),
{
    if grav >= 0 || step <= 0 {
        (p, grav)
    } else {
        gravity_fall(g, fallen(g, p), grav + step, step)
    }
}

/// A soft drop: the piece falls a row at a time, each reported as a move and a soft drop,
/// until it rests (reported too); with a soft drop speed above zero only one row falls.
pub open spec fn soft_run(g: Seq<Seq<bool>>, p: FallingPiece, speed: u32, fuel: nat) -> (FallingPiece, Seq<Event>)
    decreases fuel,
{
    let q = fallen(g, p);
    if resting(g, q) {
        (q, seq![Event::PieceMoved, Event::SoftDropped, Event::StackTouched])
    } else if speed > 0 || fuel == 0 {
        (q, seq![Event::PieceMoved, Event::SoftDropped])
    } else {
        let r = soft_run(g, q, speed, (fuel - 1) as nat);
        (r.0, seq![Event::PieceMoved, Event::SoftDropped] + r.1)
    }
}

/// The end of a frame in which the piece neither locked by the move rule nor was hard
/// dropped. A resting piece counts down its lock delay (reporting that it touched the stack
/// if it was not resting at the start of the frame) and locks when the delay runs out.
/// Otherwise the lock delay restarts and gravity acts; a piece that comes to rest reports it,
/// and when gravity is slower than soft dropping, a held soft drop moves it down. A piece that
/// goes on falling is reported with where it would land.
pub open spec fn settle_step(g: Seq<Seq<bool>>, s: FallingState, used: Controller, config: GameConfig, was: bool) -> (FallingState, Seq<Event>, FrameEnd) {
    if resting(g, s.piece) {
        let s1 = FallingState { lock_delay: (s.lock_delay - 1) as u32, gravity: config.gravity, ..s };
        let e: Seq<Event> = if !was { seq![Event::StackTouched] } else { Seq::empty() };
        if s1.lock_delay == 0 {
            (s1, e, FrameEnd::Lock(None))
        } else {
            (s1, e.push(Event::PieceFalling(s1.piece, dropped(g, s1.piece))), FrameEnd::Falling)
        }
    } else {
        let f = gravity_fall(g, s.piece, s.gravity - 100, config.gravity as int);
        let s1 = FallingState { piece: f.0, gravity: f.1 as i32, lock_delay: config.lock_delay, ..s };
        let t: (FallingState, Seq<Event>) = if resting(g, s1.piece) {
            (s1, seq![Event::StackTouched])
        } else if config.gravity > config.soft_drop_speed * 100 {
            if used.soft_drop {
                if s1.soft_drop_delay == 0 {
                    let r = soft_run(g, s1.piece, config.soft_drop_speed, 40);
                    (
                        FallingState {
                            piece: r.0,
                            gravity: config.gravity,
                            soft_drop_delay: if config.soft_drop_speed != 0 {
                                (config.soft_drop_speed - 1) as u32
                            } else {
                                0
                            },
                            ..s1
                        },
                        r.1,
                    )
                } else {
                    (FallingState { soft_drop_delay: (s1.soft_drop_delay - 1) as u32, ..s1 }, Seq::empty())
                }
            } else {
                (FallingState { soft_drop_delay: 0, ..s1 }, Seq::empty())
            }
        } else {
            (s1, Seq::empty())
        };
        (t.0, t.1.push(Event::PieceFalling(t.0.piece, dropped(g, t.0.piece))), FrameEnd::Falling)
    }
}

/// The turns and shifts of a frame, then the move count's reset when the piece reaches a new
/// lowest row: the state, the presses left and the events.
pub open spec fn moves_spec(
    g: Seq<Seq<bool>>,
    s: FallingState,
    used: Controller,
    config: GameConfig,
    left_das: u32,
    right_das: u32,
) -> (FallingState, Controller, Seq<Event>) {
    let a = turn_step(g, s, used, true, config);
    let b = turn_step(g, a.0, a.1, false, config);
    let c = shift_step(g, b.0, b.1.left, -1, left_das, config);
    let u3 = Controller { left: c.1, ..b.1 };
    let d = shift_step(g, c.0, u3.right, 1, right_das, config);
    let u4 = Controller { right: d.1, ..u3 };
    let low = low_row(d.0.piece);
    let s5 = if low < d.0.lowest_y {
        FallingState { rotation_move_count: 0, lowest_y: low as i32, ..d.0 }
    } else {
        d.0
    };
    (s5, u4, a.2 + b.2 + c.2 + d.2)
}

/// One frame of a falling piece, after hold: the turns, the shifts, the move count's reset when
/// the piece reaches a new lowest row, the move rule (too many moves lock the piece where it
/// would land, unless it could fall lower than ever), the hard drop, and then `settle_step`.
#[verifier::opaque]
pub open spec fn falling_spec(
    g: Seq<Seq<bool>>,
    s: FallingState,
    used: Controller,
    config: GameConfig,
    left_das: u32,
    right_das: u32,
) -> (FallingState, Controller, Seq<Event>, FrameEnd) {
    let was = resting(g, s.piece);
    let m = moves_spec(g, s, used, config, left_das, right_das);
    let s5 = m.0;
    let u4 = m.1;
    let e = m.2;
    let dp = dropped(g, s5.piece);
    if s5.rotation_move_count >= config.move_lock_rule && low_row(dp) >= s5.lowest_y {
        (FallingState { piece: dp, ..s5 }, u4, e, FrameEnd::Lock(None))
    } else if u4.hard_drop {
        (FallingState { piece: dp, ..s5 }, u4, e, FrameEnd::Lock(Some((s5.piece.y - dp.y) as i32)))
    } else {
        let t = settle_step(g, s5, u4, config, was);
        (t.0, u4, e + t.1, t.2)
    }
}

/// A turn that succeeds restarts the lock delay, as a shift does: after the turns and shifts of
/// a frame in which the pressed clockwise turn (or, with no clockwise press, the pressed
/// counterclockwise turn) lands, the lock delay is the configured one. So when that delay is at
/// least two and neither the move rule nor a hard drop locks the piece, the frame does not end
/// in a lock, however little lock delay was left.
pub proof fn lemma_turn_restarts_lock_delay(
    g: Seq<Seq<bool>>,
    s: FallingState,
    used: Controller,
    config: GameConfig,
    left_das: u32,
    right_das: u32,
)
    requires
        (used.rotate_right && apply_spec(g, PieceMovement::Cw, s.piece) is Some) || (!used.rotate_right
            && used.rotate_left && apply_spec(g, PieceMovement::Ccw, s.piece) is Some),
    ensures
        moves_spec(g, s, used, config, left_das, right_das).0.lock_delay == config.lock_delay,
        config.lock_delay >= 2 && !used.hard_drop && moves_spec(g, s, used, config, left_das, right_das).0.rotation_move_count
            < config.move_lock_rule ==> falling_spec(g, s, used, config, left_das, right_das).3 == FrameEnd::Falling,
{
    reveal(falling_spec);
}

/// Resting is the piece's collision one row down.
proof fn lemma_resting(g: Seq<Seq<bool>>, p: FallingPiece)
    ensures
        resting(g, p) == collides_g(g, p, 0, -1),
{
    if resting(g, p) {
        let i = choose|i: int| 0 <= i < 4 && #[trigger] occ_grid(g, p.cell(i).0, p.cell(i).1 - 1);
        assert(occ_grid(g, p.cell(i).0 + 0, p.cell(i).1 + -1));
    }
    if collides_g(g, p, 0, -1) {
        let i = choose|i: int| 0 <= i < 4 && #[trigger] occ_grid(g, p.cell(i).0 + 0, p.cell(i).1 + -1);
        assert(occ_grid(g, p.cell(i).0, p.cell(i).1 - 1));
    }
}

/// Moves the piece one row down where it can, as `fallen` says.
fn fall(board: &Board, p: &mut FallingPiece)
    requires
        board.inv(),
        !collides_g(board.grid(), *old(p), 0, 0),
    ensures
        *final(p) == fallen(board.grid(), *old(p)),
        !collides_g(board.grid(), *final(p), 0, 0),
        final(p).y <= old(p).y,
        resting(board.grid(), *old(p)) ==> *final(p) == *old(p),
        !resting(board.grid(), *old(p)) ==> final(p).y == old(p).y - 1,
{
    proof {
        lemma_fits_center(board.grid(), *p);
        lemma_shifted_fits(board.grid(), *p, 0, -1);
        lemma_resting(board.grid(), *p);
    }
    p.shift(board, 0, -1);
}

/// The lowest row of the piece's cells.
fn low_row_exec(p: &FallingPiece) -> (r: i32)
    requires
        p.in_range(),
        -1000 <= p.y <= 1000,
    ensures
        r as int == low_row(*p),
{
    let c = p.cells();
    proof {
        crate::piece::lemma_offset_small(p.kind, 0);
        crate::piece::lemma_offset_small(p.kind, 1);
        crate::piece::lemma_offset_small(p.kind, 2);
        crate::piece::lemma_offset_small(p.kind, 3);
    }
    let a = c[0].1;
    let b = c[1].1;
    let cc = c[2].1;
    let d = c[3].1;
    let ab = if a < b { a } else { b };
    let cd = if cc < d { cc } else { d };
    if ab < cd { ab } else { cd }
}

/// Gravity over a frame, as `gravity_fall` says.
fn gravity_frame(board: &Board, p: &mut FallingPiece, grav: i32, step: i32) -> (r: i32)
    requires
        board.inv(),
        !collides_g(board.grid(), *old(p), 0, 0),
        0 < step,
        -100 <= grav < step,
    ensures
        (*final(p), r as int) == gravity_fall(board.grid(), *old(p), grav as int, step as int),
        !collides_g(board.grid(), *final(p), 0, 0),
        0 <= r < step,
{
    let ghost g = board.grid();
    let mut gr = grav;
    while gr < 0
        invariant
            board.inv(),
            g == board.grid(),
            !collides_g(g, *p, 0, 0),
            0 < step,
            -100 <= gr < step,
            gravity_fall(g, *old(p), grav as int, step as int) == gravity_fall(g, *p, gr as int, step as int),
        decreases (if gr < 0 { -gr as int } else { 0int }),
    {
        gr = gr + step;
        fall(board, p);
    }
    gr
}

/// A soft drop, as `soft_run` with forty rows of fuel says.
fn soft_frame(board: &Board, p: &mut FallingPiece, speed: u32) -> (e: Vec<Event>)
    requires
        board.inv(),
        !collides_g(board.grid(), *old(p), 0, 0),
    ensures
        (*final(p), e@) == soft_run(board.grid(), *old(p), speed, 40),
        !collides_g(board.grid(), *final(p), 0, 0),
{
    let ghost g = board.grid();
    let ghost p0 = *p;
    let mut events: Vec<Event> = Vec::new();
    let mut n: u32 = 0;
    proof {
        lemma_fits_center(g, *p);
    }
    loop
        invariant_except_break
            board.inv(),
            g == board.grid(),
            !collides_g(g, *p, 0, 0),
            n <= 39,
            p.y == p0.y - n,
            0 <= p0.y < 40,
            soft_run(g, p0, speed, 40) == (soft_run(g, *p, speed, (40 - n) as nat).0, events@ + soft_run(g, *p, speed, (40 - n) as nat).1),
        ensures
            !collides_g(g, *p, 0, 0),
            soft_run(g, p0, speed, 40) == (*p, events@),
        decreases 40 - n,
    {
        let ghost before = *p;
        let ghost ev0 = events@;
        fall(board, p);
        events.push(Event::PieceMoved);
        events.push(Event::SoftDropped);
        proof {
            lemma_fits_center(g, *p);
            lemma_resting(g, *p);
        }
        if board.on_stack(p) {
            events.push(Event::StackTouched);
            proof {
                assert(events@ =~= ev0 + seq![Event::PieceMoved, Event::SoftDropped, Event::StackTouched]);
            }
            break;
        }
        if speed != 0 {
            proof {
                assert(events@ =~= ev0 + seq![Event::PieceMoved, Event::SoftDropped]);
            }
            break;
        }
        proof {
            assert(!resting(g, before));
            assert((40 - n) as nat != 0);
            assert(((40 - n) as nat - 1) as nat == (40 - (n + 1)) as nat);
            let r = soft_run(g, *p, speed, (40 - (n + 1)) as nat);
            assert(events@ + r.1 =~= ev0 + (seq![Event::PieceMoved, Event::SoftDropped] + r.1));
        }
        n = n + 1;
    }
    events
}


/// The end of a frame of a falling piece, as `settle_step` says.
fn settle_frame(board: &Board, s: &mut FallingState, used: &Controller, config: &GameConfig, was: bool) -> (r: (Vec<Event>, FrameEnd))
    requires
        board.inv(),
        !collides_g(board.grid(), old(s).piece, 0, 0),
        old(s).lock_delay > 0,
        0 <= old(s).gravity <= config.gravity,
        config.gravity > 0,
        config.lock_delay > 0,
        config.soft_drop_speed <= 20_000_000,
    ensures
        (*final(s), r.0@, r.1) == settle_step(board.grid(), *old(s), *used, *config, was),
        !collides_g(board.grid(), final(s).piece, 0, 0),
        0 <= final(s).gravity <= config.gravity,
        r.1 is Falling ==> final(s).lock_delay > 0,
        final(s).rotation_move_count == old(s).rotation_move_count,
{
    let ghost g = board.grid();
    proof {
        lemma_fits_center(g, s.piece);
    }
    let mut events: Vec<Event> = Vec::new();
    if board.on_stack(&s.piece) {
        proof {
            lemma_resting(g, s.piece);
        }
        if !was {
            events.push(Event::StackTouched);
        }
        s.lock_delay = s.lock_delay - 1;
        s.gravity = config.gravity;
        if s.lock_delay == 0 {
            proof {
                if was {
                    assert(events@ =~= Seq::<Event>::empty());
                } else {
                    assert(events@ =~= seq![Event::StackTouched]);
                }
            }
            return (events, FrameEnd::Lock(None));
        }
        let ghost e0 = events@;
        let mut ghost_piece = s.piece;
        proof {
            crate::moves::lemma_input_fits(g, PieceMovement::SonicDrop, ghost_piece);
        }
        drop_ghost(board, &mut ghost_piece);
        events.push(Event::PieceFalling(s.piece, ghost_piece));
        proof {
            if was {
                assert(e0 =~= Seq::<Event>::empty());
            } else {
                assert(e0 =~= seq![Event::StackTouched]);
            }
        }
        return (events, FrameEnd::Falling);
    }
    proof {
        lemma_resting(g, s.piece);
    }
    s.lock_delay = config.lock_delay;
    let mut p = s.piece;
    let grav = gravity_frame(board, &mut p, s.gravity - 100, config.gravity);
    s.piece = p;
    s.gravity = grav;
    proof {
        lemma_fits_center(g, s.piece);
    }
    if board.on_stack(&s.piece) {
        proof {
            lemma_resting(g, s.piece);
        }
        events.push(Event::StackTouched);
    } else {
        proof {
            lemma_resting(g, s.piece);
        }
        if config.gravity > (config.soft_drop_speed as i32) * 100 {
            if used.soft_drop {
                if s.soft_drop_delay == 0 {
                    let mut q = s.piece;
                    events = soft_frame(board, &mut q, config.soft_drop_speed);
                    s.piece = q;
                    s.soft_drop_delay = config.soft_drop_speed;
                    s.gravity = config.gravity;
                }
                if s.soft_drop_delay != 0 {
                    s.soft_drop_delay = s.soft_drop_delay - 1;
                }
            } else {
                s.soft_drop_delay = 0;
            }
        }
    }
    let ghost e0 = events@;
    let mut ghost_piece = s.piece;
    drop_ghost(board, &mut ghost_piece);
    events.push(Event::PieceFalling(s.piece, ghost_piece));
    (events, FrameEnd::Falling)
}

/// Where the piece would land, as `dropped` says.
fn drop_ghost(board: &Board, p: &mut FallingPiece)
    requires
        board.inv(),
        !collides_g(board.grid(), *old(p), 0, 0),
    ensures
        *final(p) == dropped(board.grid(), *old(p)),
        !collides_g(board.grid(), *final(p), 0, 0),
{
    proof {
        crate::moves::lemma_fits_centered(board.grid(), *p);
        crate::moves::lemma_input_fits(board.grid(), PieceMovement::SonicDrop, *p);
    }
    PieceMovement::SonicDrop.apply(p, board);
}

/// The turns and shifts of a frame and the move count's reset, as `moves_spec` says.
fn moves_frame(
    board: &Board,
    s: &mut FallingState,
    used: &mut Controller,
    config: &GameConfig,
    left_das: u32,
    right_das: u32,
) -> (events: Vec<Event>)
    requires
        board.inv(),
        !collides_g(board.grid(), old(s).piece, 0, 0),
        old(s).rotation_move_count <= u32::MAX - 30,
    ensures
        (*final(s), *final(used), events@) == moves_spec(board.grid(), *old(s), *old(used), *config, left_das, right_das),
        !collides_g(board.grid(), final(s).piece, 0, 0),
        final(s).rotation_move_count <= old(s).rotation_move_count + 22,
        final(s).lock_delay == old(s).lock_delay || final(s).lock_delay == config.lock_delay,
        final(s).gravity == old(s).gravity,
{
    let ghost g = board.grid();
    let e1 = turn_frame(board, s, used, true, config);
    let e2 = turn_frame(board, s, used, false, config);
    let mut left = used.left;
    let e3 = shift_frame(board, s, &mut left, -1, left_das, config);
    used.left = left;
    let mut right = used.right;
    let e4 = shift_frame(board, s, &mut right, 1, right_das, config);
    used.right = right;
    let ghost e = e1@ + e2@ + e3@ + e4@;
    let mut events = e1;
    let mut e2m = e2;
    let mut e3m = e3;
    let mut e4m = e4;
    events.append(&mut e2m);
    events.append(&mut e3m);
    events.append(&mut e4m);
    assert(events@ =~= e);
    proof {
        lemma_fits_center(g, s.piece);
    }
    let low = low_row_exec(&s.piece);
    if low < s.lowest_y {
        s.rotation_move_count = 0;
        s.lowest_y = low;
    }
    events
}

/// One frame of a falling piece after hold, as `falling_spec` says: the piece's state and the
/// presses left change, and the frame's events and how it ends are returned. The piece that
/// locks is the one the state then holds.
pub fn falling_frame(
    board: &Board,
    s: &mut FallingState,
    used: &mut Controller,
    config: &GameConfig,
    left_das: u32,
    right_das: u32,
) -> (r: (Vec<Event>, FrameEnd))
    requires
        board.inv(),
        !collides_g(board.grid(), old(s).piece, 0, 0),
        old(s).lock_delay > 0,
        0 <= old(s).gravity <= config.gravity,
        old(s).rotation_move_count <= u32::MAX - 30,
        config.gravity > 0,
        config.lock_delay > 0,
        config.soft_drop_speed <= 20_000_000,
    ensures
        (*final(s), *final(used), r.0@, r.1) == falling_spec(board.grid(), *old(s), *old(used), *config, left_das, right_das),
        !collides_g(board.grid(), final(s).piece, 0, 0),
        0 <= final(s).gravity <= config.gravity,
        r.1 is Falling ==> final(s).lock_delay > 0 && final(s).rotation_move_count <= old(s).rotation_move_count + 22,
{
    let ghost g = board.grid();
    let ghost s0 = *s;
    let ghost u0 = *used;
    proof {
        reveal(falling_spec);
        lemma_fits_center(g, s.piece);
        lemma_resting(g, s.piece);
    }
    let was = board.on_stack(&s.piece);
    let mut events = moves_frame(board, s, used, config, left_das, right_das);
    let ghost e = events@;
    proof {
        lemma_fits_center(g, s.piece);
    }
    let mut dp = s.piece;
    drop_ghost(board, &mut dp);
    if s.rotation_move_count >= config.move_lock_rule {
        proof {
            lemma_fits_center(g, dp);
        }
        let dlow = low_row_exec(&dp);
        if dlow >= s.lowest_y {
            s.piece = dp;
            return (events, FrameEnd::Lock(None));
        }
    }
    if used.hard_drop {
        proof {
            lemma_fits_center(g, dp);
            lemma_fits_center(g, s.piece);
        }
        let distance = s.piece.y - dp.y;
        s.piece = dp;
        return (events, FrameEnd::Lock(Some(distance)));
    }
    let ghost s5 = *s;
    let (mut rest, end) = settle_frame(board, s, used, config, was);
    let ghost t = rest@;
    events.append(&mut rest);
    assert(events@ =~= e + t);
    (events, end)
}


/// A player's game: the board, what the frame loop is doing, the settings, whether the current
/// piece came out of hold, the buttons and auto-shift counters, and the garbage counters.
pub struct Game {
    pub board: Board,
    pub state: GameState,
    pub config: GameConfig,
    pub did_hold: bool,
    pub input: InputState,
    pub counters: GarbageCounters,
}

/// The state of a piece that just appeared: its lowest row is where its cells are, no move
/// counted, full gravity counter, a lock delay of thirty frames.
pub open spec fn fresh_falling(p: FallingPiece, config: GameConfig) -> FallingState {
    FallingState {
        piece: p,
        lowest_y: low_row(p) as i32,
        rotation_move_count: 0,
        gravity: config.gravity,
        lock_delay: 30,
        soft_drop_delay: 0,
    }
}

impl Game {
    /// The game can run its next frame: a well-formed board without full rows whose bag is
    /// not empty, settings whose gravity is positive, whose lock delay is positive and whose soft
    /// drop speed fits the gravity's scale, counters with room to grow, and a falling piece that
    /// fits, with a running lock delay, a gravity counter in range and room to count moves.
    pub open spec fn wf(&self) -> bool {
        &&& self.board.wf()
        &&& no_full_rows(self.board.grid())
        &&& self.board.bag_of() != PieceSet::empty_set()
        &&& self.board.combo_of() < u32::MAX
        &&& self.board.queue().len() < usize::MAX
        &&& self.config.gravity > 0
        &&& self.config.lock_delay > 0
        &&& self.config.soft_drop_speed <= 20_000_000
        &&& self.counters.attacking <= u32::MAX - 100
        &&& match self.state {
            GameState::Falling(f) => {
                &&& !collides_g(self.board.grid(), f.piece, 0, 0)
                &&& f.lock_delay > 0
                &&& 0 <= f.gravity <= self.config.gravity
                &&& f.rotation_move_count <= u32::MAX - 30
            },
            _ => true,
        }
    }

    /// A new game on an empty board: the next queue is filled with pieces drawn from the bag,
    /// and the first piece spawns after the spawn delay.
    pub fn new(config: GameConfig, piece_rng: &mut Mcg128Xsl64) -> (g: Game)
        ensures
            g.board.queue().len() == config.next_queue_size,
            g.state == GameState::SpawnDelay(config.spawn_delay),
            g.config == config,
            !g.did_hold,
            g.input == (InputState {
                prev: crate::executor::released(),
                used: crate::executor::released(),
                left_das: config.delayed_auto_shift,
                right_das: config.delayed_auto_shift,
                going_right: false,
            }),
            g.counters == (GarbageCounters { garbage_queue: 0, attacking: 0 }),
            g.board.wf(),
            forall|x: int, y: int| 0 <= x < 10 && 0 <= y < 40 ==> !#[trigger] g.board.grid()[y][x],
            g.board.bag_of() != PieceSet::empty_set(),
    {
        let mut board: Board = Board::new();
        proof {
            PieceSet::lemma_has_const(Piece::I);
        }
        let mut i: u32 = 0;
        while i < config.next_queue_size
            invariant
                i <= config.next_queue_size,
                board.wf(),
                board.queue().len() == i,
                forall|x: int, y: int| 0 <= x < 10 && 0 <= y < 40 ==> !#[trigger] board.grid()[y][x],
                board.bag_of() != PieceSet::empty_set(),
            decreases config.next_queue_size - i,
        {
            let p = board.generate_next_piece(piece_rng);
            proof {
                crate::board::lemma_bag_never_empty(board.bag_of(), p);
            }
            let ghost before = board;
            board.add_next_piece(p);
            proof {
                before.lemma_same_state_wf(board);
            }
            i = i + 1;
        }
        let input = InputState::new(&config);
        Game {
            board,
            state: GameState::SpawnDelay(config.spawn_delay),
            config,
            did_hold: false,
            input,
            counters: GarbageCounters { garbage_queue: 0, attacking: 0 },
        }
    }
}


/// What appears when a piece spawns at `sp`: a falling piece reported with where it would land,
/// or, when it is blocked, the end of the game.
pub open spec fn appear(g: Seq<Seq<bool>>, sp: Option<FallingPiece>, config: GameConfig) -> (GameState, Seq<Event>) {
    match sp {
        Some(p) => (GameState::Falling(fresh_falling(p, config)), seq![Event::PieceFalling(p, dropped(g, p))]),
        None => (GameState::GameOver, seq![Event::GameOver]),
    }
}

impl Game {
    /// One frame of the game with the buttons `current`: the input counters take the buttons
    /// in; then a waiting state waits (`wait_spec`); a spawn delay that ran out draws a piece
    /// from the bag into the queue and spawns the front of the queue; a falling piece is held
    /// when hold is pressed and has not been used for it, and otherwise moves as
    /// `falling_spec` says and locks where that ends in a lock, after which the game goes on as
    /// `after_lock_spec` says. Returns the frame's events and whether garbage is dealt now.
    pub fn update(&mut self, current: Controller, piece_rng: &mut Mcg128Xsl64) -> (r: (Vec<Event>, bool))
        requires
            old(self).wf(),
        ensures
            final(self).config == old(self).config,
            ({
                let inp = input_spec(old(self).input, current, old(self).config);
                let g = old(self).board.grid();
                let config = old(self).config;
                match old(self).state {
                    GameState::SpawnDelay(0) => {
                        &&& final(self).input == inp
                        &&& final(self).board.grid() == g
                        &&& !r.1
                        &&& exists|n: Piece| {
                            let q = old(self).board.queue().push(n);
                            let sp = SpawnRule::Row19Or20.spawn_spec(q[0], final(self).board);
                            let a = appear(g, sp, config);
                            &&& #[trigger] old(self).board.bag_of().has(n)
                            &&& final(self).board.queue() == q.drop_first()
                            &&& final(self).state == a.0
                            &&& r.0@ == (if config.spawn_delay == 0 {
                                seq![Event::FrameBeforePieceSpawns]
                            } else {
                                Seq::empty()
                            }) + (if sp is Some {
                                seq![Event::PieceSpawned { new_in_queue: n }]
                            } else {
                                Seq::empty()
                            }) + a.1
                        }
                    },
                    GameState::Falling(f) => if !old(self).did_hold && inp.used.hold {
                        let a = match old(self).board.hold_of() {
                            Some(h) => appear(g, SpawnRule::Row19Or20.spawn_spec(h, old(self).board), config),
                            None => (GameState::SpawnDelay(config.spawn_delay), Seq::empty()),
                        };
                        &&& final(self).input == inp
                        &&& final(self).did_hold
                        &&& final(self).board.grid() == g
                        &&& final(self).board.hold_of() == Some(f.piece.kind.0)
                        &&& final(self).board.queue() == old(self).board.queue()
                        &&& final(self).state == a.0
                        &&& r.0@ == seq![Event::PieceHeld(f.piece.kind.0)] + a.1
                        &&& !r.1
                    } else {
                        let fs = falling_spec(g, f, inp.used, config, inp.left_das, inp.right_das);
                        &&& final(self).input == (InputState { used: fs.1, ..inp })
                        &&& match fs.3 {
                            FrameEnd::Falling => {
                                &&& final(self).state == GameState::Falling(fs.0)
                                &&& final(self).board.grid() == g
                                &&& final(self).did_hold == old(self).did_hold
                                &&& r.0@ == fs.2
                                &&& !r.1
                            },
                            FrameEnd::Lock(d) => exists|l: LockResult| {
                                &&& r.0@ == fs.2 + seq![
                                    Event::PiecePlaced { piece: fs.0.piece, locked: l, hard_drop_distance: d },
                                ] + (if l.locked_out { seq![Event::GameOver] } else { Seq::empty() })
                                &&& final(self).board.grid() == clear_lines(placed_grid(g, fs.0.piece))
                                &&& #[trigger] l.cleared_lines@.len() == full_rows(placed_grid(g, fs.0.piece), 40).len()
                                &&& (final(self).state, final(self).counters.attacking, r.1) == after_lock_spec(
                                    l,
                                    old(self).counters.attacking,
                                    config,
                                )
                                &&& !final(self).did_hold
                            },
                        }
                    },
                    _ => {
                        &&& final(self).input == inp
                        &&& final(self).board.grid() == g
                        &&& (final(self).state, r.0@, r.1) == wait_spec(old(self).state, config)
                    },
                }
            }),
    {
        let config = self.config;
        self.input.update(current, &config);
        match self.state {
            GameState::SpawnDelay(0) => {
                let e = self.spawn_frame(piece_rng);
                (e, false)
            },
            GameState::Falling(f) => self.piece_frame(f),
            _ => {
                let mut st = self.state;
                let r = wait_frame(&mut st, &config);
                self.state = st;
                r
            },
        }
    }

    /// The frame on which a spawn delay runs out.
    fn spawn_frame(&mut self, piece_rng: &mut Mcg128Xsl64) -> (e: Vec<Event>)
        requires
            old(self).wf(),
            old(self).state == GameState::SpawnDelay(0),
        ensures
            final(self).config == old(self).config,
            final(self).input == old(self).input,
            final(self).board.grid() == old(self).board.grid(),
            exists|n: Piece| {
                let q = old(self).board.queue().push(n);
                let sp = SpawnRule::Row19Or20.spawn_spec(q[0], final(self).board);
                let a = appear(old(self).board.grid(), sp, old(self).config);
                &&& #[trigger] old(self).board.bag_of().has(n)
                &&& final(self).board.queue() == q.drop_first()
                &&& final(self).state == a.0
                &&& e@ == (if old(self).config.spawn_delay == 0 {
                    seq![Event::FrameBeforePieceSpawns]
                } else {
                    Seq::empty()
                }) + (if sp is Some {
                    seq![Event::PieceSpawned { new_in_queue: n }]
                } else {
                    Seq::empty()
                }) + a.1
            },
    {
        let ghost g = self.board.grid();
        let mut events: Vec<Event> = Vec::new();
        if self.config.spawn_delay == 0 {
            events.push(Event::FrameBeforePieceSpawns);
        }
        let ghost pre = events@;
        let new_piece = self.board.generate_next_piece(piece_rng);
        let ghost b0 = self.board;
        self.board.add_next_piece(new_piece);
        proof {
            b0.lemma_same_state_wf(self.board);
        }
        let ghost b1 = self.board;
        let next = self.board.advance_queue();
        proof {
            b1.lemma_same_state_wf(self.board);
        }
        let next = next.unwrap();
        let spawned = SpawnRule::Row19Or20.spawn(next, &self.board);
        match spawned {
            Some(sp) => {
                proof {
                    crate::moves::lemma_blocked(self.board, sp);
                    lemma_fits_center(g, sp);
                }
                let low = low_row_exec(&sp);
                self.state = GameState::Falling(FallingState {
                    piece: sp,
                    lowest_y: low,
                    rotation_move_count: 0,
                    gravity: self.config.gravity,
                    lock_delay: 30,
                    soft_drop_delay: 0,
                });
                let mut ghost_piece = sp;
                drop_ghost(&self.board, &mut ghost_piece);
                events.push(Event::PieceSpawned { new_in_queue: new_piece });
                events.push(Event::PieceFalling(sp, ghost_piece));
                assert(events@ =~= pre + seq![Event::PieceSpawned { new_in_queue: new_piece }] + seq![Event::PieceFalling(sp, ghost_piece)]);
            },
            None => {
                self.state = GameState::GameOver;
                events.push(Event::GameOver);
                assert(events@ =~= pre + Seq::<Event>::empty() + seq![Event::GameOver]);
            },
        }
        proof {
            if self.config.spawn_delay == 0 {
                assert(pre =~= seq![Event::FrameBeforePieceSpawns]);
            } else {
                assert(pre =~= Seq::<Event>::empty());
            }
            let n = new_piece;
            assert(b0.queue().push(n)[0] == next);
            assert(b0.bag_of().has(n));
        }
        events
    }

    /// A frame of a falling piece: hold, or the piece's moves and perhaps its lock.
    fn piece_frame(&mut self, f: FallingState) -> (r: (Vec<Event>, bool))
        requires
            old(self).wf(),
            old(self).state == GameState::Falling(f),
        ensures
            final(self).config == old(self).config,
            ({
                let inp = old(self).input;
                let g = old(self).board.grid();
                let config = old(self).config;
                if !old(self).did_hold && inp.used.hold {
                    let a = match old(self).board.hold_of() {
                        Some(h) => appear(g, SpawnRule::Row19Or20.spawn_spec(h, old(self).board), config),
                        None => (GameState::SpawnDelay(config.spawn_delay), Seq::empty()),
                    };
                    &&& final(self).input == inp
                    &&& final(self).did_hold
                    &&& final(self).board.grid() == g
                    &&& final(self).board.hold_of() == Some(f.piece.kind.0)
                    &&& final(self).board.queue() == old(self).board.queue()
                    &&& final(self).state == a.0
                    &&& r.0@ == seq![Event::PieceHeld(f.piece.kind.0)] + a.1
                    &&& !r.1
                } else {
                    let fs = falling_spec(g, f, inp.used, config, inp.left_das, inp.right_das);
                    &&& final(self).input == (InputState { used: fs.1, ..inp })
                    &&& match fs.3 {
                        FrameEnd::Falling => {
                            &&& final(self).state == GameState::Falling(fs.0)
                            &&& final(self).board.grid() == g
                            &&& final(self).did_hold == old(self).did_hold
                            &&& r.0@ == fs.2
                            &&& !r.1
                        },
                        FrameEnd::Lock(d) => exists|l: LockResult| {
                            &&& r.0@ == fs.2 + seq![
                                Event::PiecePlaced { piece: fs.0.piece, locked: l, hard_drop_distance: d },
                            ] + (if l.locked_out { seq![Event::GameOver] } else { Seq::empty() })
                            &&& final(self).board.grid() == clear_lines(placed_grid(g, fs.0.piece))
                            &&& #[trigger] l.cleared_lines@.len() == full_rows(placed_grid(g, fs.0.piece), 40).len()
                            &&& (final(self).state, final(self).counters.attacking, r.1) == after_lock_spec(
                                l,
                                old(self).counters.attacking,
                                config,
                            )
                            &&& !final(self).did_hold
                        },
                    }
                }
            }),
    {
        let ghost g = self.board.grid();
        if !self.did_hold && self.input.used.hold {
            self.did_hold = true;
            let mut events: Vec<Event> = Vec::new();
            events.push(Event::PieceHeld(f.piece.kind.0));
            let ghost b0 = self.board;
            let held = self.board.hold(f.piece.kind.0);
            proof {
                b0.lemma_same_state_wf(self.board);
            }
            match held {
                Some(h) => {
                    match SpawnRule::Row19Or20.spawn(h, &self.board) {
                        Some(sp) => {
                            proof {
                                crate::moves::lemma_blocked(self.board, sp);
                                lemma_fits_center(g, sp);
                            }
                            let low = low_row_exec(&sp);
                            self.state = GameState::Falling(FallingState {
                                piece: sp,
                                lowest_y: low,
                                rotation_move_count: 0,
                                gravity: self.config.gravity,
                                lock_delay: 30,
                                soft_drop_delay: 0,
                            });
                            let mut ghost_piece = sp;
                            drop_ghost(&self.board, &mut ghost_piece);
                            events.push(Event::PieceFalling(sp, ghost_piece));
                        },
                        None => {
                            self.state = GameState::GameOver;
                            events.push(Event::GameOver);
                        },
                    }
                },
                None => {
                    self.state = GameState::SpawnDelay(self.config.spawn_delay);
                },
            }
            proof {
                assert(b0.hold_of() == held);
                let a = match b0.hold_of() {
                    Some(h) => appear(g, SpawnRule::Row19Or20.spawn_spec(h, b0), self.config),
                    None => (GameState::SpawnDelay(self.config.spawn_delay), Seq::<Event>::empty()),
                };
                assert(events@ =~= seq![Event::PieceHeld(f.piece.kind.0)] + a.1);
            }
            return (events, false);
        }
        let mut fs = f;
        let mut used = self.input.used;
        let (mut events, end) = falling_frame(&self.board, &mut fs, &mut used, &self.config, self.input.left_das, self.input.right_das);
        self.input.used = used;
        match end {
            FrameEnd::Falling => {
                self.state = GameState::Falling(fs);
                (events, false)
            },
            FrameEnd::Lock(d) => {
                let ghost e0 = events@;
                let (mut tail, deal) = self.lock_frame(fs.piece, d);
                let ghost t = tail@;
                events.append(&mut tail);
                assert(events@ =~= e0 + t);
                (events, deal)
            },
        }
    }

    /// Locks `piece` on the board and settles the game as `after_lock_spec` says: the events
    /// report the placement, and the end of the game on a lock out.
    fn lock_frame(&mut self, piece: FallingPiece, d: Option<i32>) -> (r: (Vec<Event>, bool))
        requires
            old(self).board.wf(),
            no_full_rows(old(self).board.grid()),
            old(self).board.combo_of() < u32::MAX,
            old(self).counters.attacking <= u32::MAX - 100,
            !collides_g(old(self).board.grid(), piece, 0, 0),
        ensures
            final(self).config == old(self).config,
            final(self).input == old(self).input,
            exists|l: LockResult| {
                &&& r.0@ == seq![Event::PiecePlaced { piece, locked: l, hard_drop_distance: d }] + (if l.locked_out {
                    seq![Event::GameOver]
                } else {
                    Seq::empty()
                })
                &&& final(self).board.grid() == clear_lines(placed_grid(old(self).board.grid(), piece))
                &&& #[trigger] l.cleared_lines@.len() == full_rows(placed_grid(old(self).board.grid(), piece), 40).len()
                &&& (final(self).state, final(self).counters.attacking, r.1) == after_lock_spec(
                    l,
                    old(self).counters.attacking,
                    old(self).config,
                )
                &&& !final(self).did_hold
            },
    {
        let ghost g = self.board.grid();
        self.did_hold = false;
        proof {
            lemma_fits_center(g, piece);
            crate::moves::lemma_fits_cells(g, piece);
            self.board.lemma_inv();
            crate::evaluation::shapes::lemma_piece_clears_at_most_four(g, piece);
        }
        let locked = self.board.lock_piece(piece);
        let locked_out = locked.locked_out;
        assert(locked.garbage_sent <= 100);
        let (st, deal) = after_lock(&locked, &mut self.counters, &self.config);
        self.state = st;
        let ghost l = locked;
        let mut events: Vec<Event> = Vec::new();
        events.push(Event::PiecePlaced { piece, locked, hard_drop_distance: d });
        if locked_out {
            events.push(Event::GameOver);
        }
        proof {
            if l.locked_out {
                assert(events@ =~= seq![Event::PiecePlaced { piece, locked: l, hard_drop_distance: d }] + seq![Event::GameOver]);
            } else {
                assert(events@ =~= seq![Event::PiecePlaced { piece, locked: l, hard_drop_distance: d }] + Seq::<Event>::empty());
            }
        }
        (events, deal)
    }
}

} // verus!
