use vstd::prelude::*;
use std::collections::VecDeque;
use crate::board::{Board, collides_g};
use crate::controller::Controller as Buttons;
use crate::executor::Event;
use crate::piece::{FallingPiece, Piece};
use crate::row::Row;

verus! {

/// One step of a planned move, as the bot plans it.
#[derive(Copy, Clone, Debug, PartialEq, Eq, Hash, Structural)]
pub enum Input {
    Left,
    Right,
    Cw,
    Ccw,
    DasLeft,
    DasRight,
    SonicDrop,
}

/// A move that the bot hands over: whether to hold first, the inputs to play and where the
/// piece is expected to lock.
#[derive(Clone, Debug, PartialEq, Eq)]
pub struct PlannedMove {
    pub hold: bool,
    pub inputs: Vec<Input>,
    pub expected_location: FallingPiece,
}

/// What the controller asks of the bot it drives.
#[derive(Copy, Clone, Debug, PartialEq, Eq, Structural)]
pub enum Request {
    /// Tell the bot that `Piece` entered the queue.
    AddNextPiece(Piece),
    /// Ask the bot for its next move.
    RequestNextMove,
    /// Let the bot know that a piece is about to spawn.
    PrepareNextMove,
    /// Hand the bot the current field, back-to-back flag and combo, since its picture of the game
    /// is out of date.
    Reset,
}

/// The move being played: whether a hold is still due, the inputs left and the expected
/// location.
pub type Executing = Option<(bool, Seq<Input>, FallingPiece)>;

/// Plays a bot's moves on a game by turning its planned inputs into button presses, one frame at
/// a time.
pub struct Controller {
    executing: Option<(bool, VecDeque<Input>, FallingPiece)>,
    controller: Buttons,
}

/// The buttons with `left`, `right`, `rotate_left`, `rotate_right` and `soft_drop` set as given.
pub open spec fn with_moves(
    c: Buttons,
    left: bool,
    right: bool,
    rotate_left: bool,
    rotate_right: bool,
    soft_drop: bool,
) -> Buttons {
    Buttons { left, right, rotate_left, rotate_right, soft_drop, ..c }
}

/// One frame of playing the inputs `todo` on the falling `piece`: the buttons and the inputs
/// left. A pending hold is pressed first; inputs that need a button press are used up when the
/// button goes down, and the repeating ones when the piece can go no further.
pub open spec fn falling_step(
    g: Seq<Seq<bool>>,
    piece: FallingPiece,
    needs_hold: bool,
    todo: Seq<Input>,
    c: Buttons,
) -> (Seq<Input>, Buttons) {
    if needs_hold {
        (todo, Buttons { hold: !c.hold, ..c })
    } else {
        let c0 = Buttons { hold: false, hard_drop: false, ..c };
        if todo.len() == 0 {
            (todo, Buttons { hard_drop: true, ..crate::executor::released() })
        } else {
            let rest = todo.drop_first();
            match todo[0] {
                Input::DasLeft => (
                    if collides_g(g, piece, -1, 0) {
                        rest
                    } else {
                        todo
                    },
                    with_moves(c0, !c0.left, false, false, false, false),
                ),
                Input::DasRight => (
                    if collides_g(g, piece, 1, 0) {
                        rest
                    } else {
                        todo
                    },
                    with_moves(c0, false, !c0.right, false, false, false),
                ),
                Input::SonicDrop => (
                    if collides_g(g, piece, 0, -1) {
                        rest
                    } else {
                        todo
                    },
                    with_moves(c0, false, false, false, false, true),
                ),
                Input::Left => (
                    if !c0.left {
                        rest
                    } else {
                        todo
                    },
                    with_moves(c0, !c0.left, false, false, false, false),
                ),
                Input::Right => (
                    if !c0.right {
                        rest
                    } else {
                        todo
                    },
                    with_moves(c0, false, !c0.right, false, false, false),
                ),
                Input::Cw => (
                    if !c0.rotate_right {
                        rest
                    } else {
                        todo
                    },
                    with_moves(c0, false, false, false, !c0.rotate_right, false),
                ),
                Input::Ccw => (
                    if !c0.rotate_left {
                        rest
                    } else {
                        todo
                    },
                    with_moves(c0, false, false, !c0.rotate_left, false, false),
                ),
            }
        }
    }
}

/// What one game event does to the move being played, the buttons and whether the bot must be
/// reset, and the requests it makes of the bot.
pub open spec fn event_step(
    g: Seq<Seq<bool>>,
    ex: Executing,
    c: Buttons,
    reset: bool,
    e: Event,
) -> (Executing, Buttons, bool, Seq<Request>) {
    match e {
        Event::PieceSpawned { new_in_queue } => (
            ex,
            c,
            reset,
            if ex is None {
                seq![Request::AddNextPiece(new_in_queue), Request::RequestNextMove]
            } else {
                seq![Request::AddNextPiece(new_in_queue)]
            },
        ),
        Event::SpawnDelayStart => (
            ex,
            c,
            reset,
            if ex is None {
                seq![Request::PrepareNextMove]
            } else {
                Seq::empty()
            },
        ),
        Event::PieceHeld(_) => (
            match ex {
                Some((_, todo, target)) => Some((false, todo, target)),
                None => None,
            },
            c,
            reset,
            Seq::empty(),
        ),
        Event::PieceFalling(piece, _) => match ex {
            Some((h, todo, target)) => {
                let r = falling_step(g, piece, h, todo, c);
                (Some((h, r.0, target)), r.1, reset, Seq::empty())
            },
            None => (ex, c, reset, Seq::empty()),
        },
        Event::PiecePlaced { piece, .. } => (
            None,
            crate::executor::released(),
            reset || match ex {
                Some((_, _, target)) => target != piece,
                None => true,
            },
            Seq::empty(),
        ),
        Event::GarbageAdded(_) => (ex, c, true, Seq::empty()),
        _ => (ex, c, reset, Seq::empty()),
    }
}

/// The events of `events` from the first up to `n`, played in turn.
pub open spec fn run_events(
    g: Seq<Seq<bool>>,
    ex: Executing,
    c: Buttons,
    events: Seq<Event>,
    n: int,
) -> (Executing, Buttons, bool, Seq<Request>)
    decreases n,
{
    if n <= 0 {
        (ex, c, false, Seq::empty())
    } else {
        let prev = run_events(g, ex, c, events, n - 1);
        let step = event_step(g, prev.0, prev.1, prev.2, events[n - 1]);
        (step.0, step.1, step.2, prev.3 + step.3)
    }
}

/// The piece lies far enough from the limits of `i32` to be moved by one cell.
pub open spec fn movable(p: FallingPiece) -> bool {
    i32::MIN + 3 <= p.x <= i32::MAX - 3 && i32::MIN + 4 <= p.y <= i32::MAX - 4
}

/// The pieces of the falling-piece events can be moved by one cell.
pub open spec fn events_in_range(events: Seq<Event>) -> bool {
    forall|i: int|
        0 <= i < events.len() ==> match #[trigger] events[i] {
            Event::PieceFalling(p, _) => movable(p),
            _ => true,
        }
}

/// The move being played, with its inputs as a sequence.
pub open spec fn view_exec(ex: Option<(bool, VecDeque<Input>, FallingPiece)>) -> Executing {
    match ex {
        Some((h, q, p)) => Some((h, q@, p)),
        None => None,
    }
}

impl Controller {
    /// The move being played.
    pub closed spec fn executing(&self) -> Executing {
        view_exec(self.executing)
    }

    /// The buttons held.
    pub closed spec fn buttons(&self) -> Buttons {
        self.controller
    }

    /// A controller with no move to play and no button held.
    pub fn new() -> (c: Self)
        ensures
            c.executing() is None,
            c.buttons() == crate::executor::released(),
    {
        Controller { executing: None, controller: Buttons::default() }
    }

    /// The buttons to hold on this frame.
    pub fn controller(&self) -> (c: Buttons)
        ensures
            c == self.buttons(),
    {
        self.controller
    }

    /// Plays one frame of the inputs `todo` on the falling `piece`.
    fn play_inputs<R: Row>(
        board: &Board<R>,
        piece: FallingPiece,
        needs_hold: bool,
        todo: &mut VecDeque<Input>,
        c: &mut Buttons,
    )
        requires
            board.inv(),
            movable(piece),
        ensures
            (final(todo)@, *final(c)) == falling_step(
                board.grid(),
                piece,
                needs_hold,
                old(todo)@,
                *old(c),
            ),
    {
        if needs_hold {
            c.hold = !c.hold;
            return;
        }
        c.hold = false;
        c.hard_drop = false;
        if todo.len() == 0 {
            *c = Buttons::default();
            c.hard_drop = true;
            return;
        }
        let first = todo[0];
        match first {
            Input::DasLeft => {
                c.right = false;
                c.rotate_left = false;
                c.rotate_right = false;
                c.soft_drop = false;
                c.left = !c.left;
                let mut p = piece;
                if !p.shift(board, -1, 0) {
                    todo.pop_front();
                }
            },
            Input::DasRight => {
                c.left = false;
                c.rotate_left = false;
                c.rotate_right = false;
                c.soft_drop = false;
                c.right = !c.right;
                let mut p = piece;
                if !p.shift(board, 1, 0) {
                    todo.pop_front();
                }
            },
            Input::SonicDrop => {
                c.right = false;
                c.rotate_left = false;
                c.rotate_right = false;
                c.left = false;
                c.soft_drop = true;
                let mut p = piece;
                if !p.shift(board, 0, -1) {
                    todo.pop_front();
                }
            },
            Input::Left => {
                c.right = false;
                c.rotate_left = false;
                c.rotate_right = false;
                c.soft_drop = false;
                c.left = !c.left;
                if c.left {
                    todo.pop_front();
                }
            },
            Input::Right => {
                c.left = false;
                c.rotate_left = false;
                c.rotate_right = false;
                c.soft_drop = false;
                c.right = !c.right;
                if c.right {
                    todo.pop_front();
                }
            },
            Input::Cw => {
                c.right = false;
                c.rotate_left = false;
                c.left = false;
                c.soft_drop = false;
                c.rotate_right = !c.rotate_right;
                if c.rotate_right {
                    todo.pop_front();
                }
            },
            Input::Ccw => {
                c.left = false;
                c.right = false;
                c.rotate_right = false;
                c.soft_drop = false;
                c.rotate_left = !c.rotate_left;
                if c.rotate_left {
                    todo.pop_front();
                }
            },
        }
    }

    /// Handles one frame. `bot_dead` says whether the bot has died, `polled` is the move the
    /// bot handed over since the last frame, if any, and `events` are what the game reported.
    /// A dead bot makes the controller tap hard drop; a new move replaces the one being played;
    /// then each event is handled as `event_step` describes. Returns the requests to pass on to
    /// the bot, in order, ending with `Request::Reset` when its picture of the game is out of
    /// date.
    pub fn update<R: Row>(
        &mut self,
        board: &Board<R>,
        events: &[Event],
        bot_dead: bool,
        polled: Option<PlannedMove>,
    ) -> (requests: Vec<Request>)
        requires
            board.inv(),
            events_in_range(events@),
        ensures
            ({
                let c1 = if bot_dead {
                    Buttons { hard_drop: !old(self).buttons().hard_drop, ..old(self).buttons() }
                } else {
                    old(self).buttons()
                };
                let ex1 = match polled {
                    Some(m) => Some((m.hold, m.inputs@, m.expected_location)),
                    None => old(self).executing(),
                };
                let r = run_events(board.grid(), ex1, c1, events@, events@.len() as int);
                &&& final(self).executing() == r.0
                &&& final(self).buttons() == r.1
                &&& requests@ == r.3 + if r.2 {
                    seq![Request::Reset]
                } else {
                    Seq::empty()
                }
            }),
    {
        let mut c = self.controller;
        if bot_dead {
            c.hard_drop = !c.hard_drop;
        }
        let mut ex = self.executing.take();
        match polled {
            Some(mv) => {
                let mut q: VecDeque<Input> = VecDeque::new();
                let mut k: usize = 0;
                while k < mv.inputs.len()
                    invariant
                        k <= mv.inputs@.len(),
                        q@ == mv.inputs@.take(k as int),
                    decreases mv.inputs@.len() - k,
                {
                    q.push_back(mv.inputs[k]);
                    proof {
                        assert(mv.inputs@.take(k + 1) =~= mv.inputs@.take(k as int).push(
                            mv.inputs@[k as int],
                        ));
                    }
                    k = k + 1;
                }
                assert(mv.inputs@.take(mv.inputs@.len() as int) =~= mv.inputs@);
                ex = Some((mv.hold, q, mv.expected_location));
            },
            None => {},
        }
        let ghost g = board.grid();
        let ghost ex1: Executing = view_exec(ex);
        let ghost c1 = c;
        let mut reset = false;
        let mut requests: Vec<Request> = Vec::new();
        let mut i: usize = 0;
        while i < events.len()
            invariant
                i <= events@.len(),
                board.inv(),
                g == board.grid(),
                events_in_range(events@),
                ({
                    let r = run_events(g, ex1, c1, events@, i as int);
                    &&& view_exec(ex) == r.0
                    &&& c == r.1
                    &&& reset == r.2
                    &&& requests@ == r.3
                }),
            decreases events@.len() - i,
        {
            let ghost before: Executing = view_exec(ex);
            let ghost c_before = c;
            let ghost reset_before = reset;
            let ghost req_before = requests@;
            match &events[i] {
                Event::PieceSpawned { new_in_queue } => {
                    requests.push(Request::AddNextPiece(*new_in_queue));
                    if ex.is_none() {
                        requests.push(Request::RequestNextMove);
                    }
                },
                Event::SpawnDelayStart => {
                    if ex.is_none() {
                        requests.push(Request::PrepareNextMove);
                    }
                },
                Event::PieceHeld(_) => {
                    let cur = ex.take();
                    match cur {
                        Some((_, q, target)) => {
                            ex = Some((false, q, target));
                        },
                        None => {},
                    }
                },
                Event::PieceFalling(piece, _) => {
                    let cur = ex.take();
                    match cur {
                        Some((h, q, target)) => {
                            let mut q = q;
                            proof {
                                assert(events@[i as int] == events[i as int]);
                            }
                            Self::play_inputs(board, *piece, h, &mut q, &mut c);
                            ex = Some((h, q, target));
                        },
                        None => {},
                    }
                },
                Event::PiecePlaced { piece, .. } => {
                    c = Buttons::default();
                    let cur = ex.take();
                    match cur {
                        Some((_, _, target)) => {
                            if target != *piece {
                                reset = true;
                            }
                        },
                        None => {
                            reset = true;
                        },
                    }
                },
                Event::GarbageAdded(_) => {
                    reset = true;
                },
                _ => {},
            }
            proof {
                let step = event_step(g, before, c_before, reset_before, events@[i as int]);
                assert(requests@ =~= req_before + step.3);
            }
            i = i + 1;
        }
        if reset {
            requests.push(Request::Reset);
        }
        self.executing = ex;
        self.controller = c;
        requests
    }
}

} // verus!
