use vstd::prelude::*;
use std::collections::VecDeque;
use crate::board::{Board, occ_grid};
use crate::controller::Controller;
use crate::piece::{FallingPiece, LockResult, Piece, PieceMovement};
use crate::row::Row;

verus! {

/// Things that happen in a game on one frame.
#[derive(Clone, Debug)]
pub enum Event {
    PieceSpawned { new_in_queue: Piece },
    SpawnDelayStart,
    FrameBeforePieceSpawns,
    PieceMoved,
    PieceRotated,
    PieceTSpined,
    PieceHeld(Piece),
    StackTouched,
    SoftDropped,
    PieceFalling(FallingPiece, FallingPiece),
    EndOfLineClearDelay,
    PiecePlaced { piece: FallingPiece, locked: LockResult, hard_drop_distance: Option<i32> },
    GarbageSent(u32),
    GarbageAdded(Vec<usize>),
    GameOver,
}

/// Presses the buttons that carry out a planned list of movements, at most one press every
/// `speed_limit + 1` frames.
pub struct PieceMoveExecutor {
    needs_hold: bool,
    speed_limit: u32,
    input_timer: u32,
    executing: VecDeque<PieceMovement>,
    controller: Controller,
}

/// The state of an executor: whether it still has to hold, its input timer, the movements left
/// and the buttons it currently holds.
pub type ExecutorState = (bool, u32, Seq<PieceMovement>, Controller);

/// The controller with no button held.
pub open spec fn released() -> Controller {
    Controller {
        left: false,
        right: false,
        rotate_right: false,
        rotate_left: false,
        soft_drop: false,
        hard_drop: false,
        hold: false,
    }
}

/// The buttons and the movements left after one input frame on a falling piece, given whether
/// the piece rests on the stack.
pub open spec fn input_step(needs_hold: bool, todo: Seq<PieceMovement>, c: Controller, on_stack: bool) -> (
    Seq<PieceMovement>,
    Controller,
) {
    if needs_hold {
        (todo, Controller { hold: !c.hold, ..c })
    } else {
        let c = Controller { hold: false, hard_drop: false, ..c };
        if todo.len() == 0 {
            (todo, Controller { hard_drop: true, ..released() })
        } else {
            match todo[0] {
                PieceMovement::SonicDrop => {
                    let c = Controller {
                        right: false,
                        rotate_left: false,
                        rotate_right: false,
                        left: false,
                        soft_drop: true,
                        ..c
                    };
                    if on_stack {
                        (todo.drop_first(), Controller { soft_drop: false, ..c })
                    } else {
                        (todo, c)
                    }
                },
                PieceMovement::Left => {
                    let c = Controller {
                        right: false,
                        rotate_left: false,
                        rotate_right: false,
                        soft_drop: false,
                        left: !c.left,
                        ..c
                    };
                    (if c.left { todo.drop_first() } else { todo }, c)
                },
                PieceMovement::Right => {
                    let c = Controller {
                        left: false,
                        rotate_left: false,
                        rotate_right: false,
                        soft_drop: false,
                        right: !c.right,
                        ..c
                    };
                    (if c.right { todo.drop_first() } else { todo }, c)
                },
                PieceMovement::Cw => {
                    let c = Controller {
                        right: false,
                        rotate_left: false,
                        left: false,
                        soft_drop: false,
                        rotate_right: !c.rotate_right,
                        ..c
                    };
                    (if c.rotate_right { todo.drop_first() } else { todo }, c)
                },
                PieceMovement::Ccw => {
                    let c = Controller {
                        left: false,
                        right: false,
                        rotate_right: false,
                        soft_drop: false,
                        rotate_left: !c.rotate_left,
                        ..c
                    };
                    (if c.rotate_left { todo.drop_first() } else { todo }, c)
                },
            }
        }
    }
}

/// Processes `events` from index `i`: the executor state after them, the buttons handed out, and
/// the placed piece if a `PiecePlaced` event ended the run early.
pub open spec fn executor_run<R: Row>(
    s: ExecutorState,
    speed_limit: u32,
    out: Controller,
    board: Board<R>,
    events: Seq<Event>,
    i: int,
) -> (ExecutorState, Controller, Option<FallingPiece>)
    decreases events.len() - i,
{
    if i < 0 || i >= events.len() {
        (s, out, None)
    } else {
        match events[i] {
            Event::PieceHeld(_) => executor_run(
                (false, s.1, s.2, s.3),
                speed_limit,
                out,
                board,
                events,
                i + 1,
            ),
            Event::PieceFalling(piece, _) => {
                if s.1 == 0 || s.3.soft_drop {
                    let (todo, c) = input_step(s.0, s.2, s.3, board.collides(piece, 0, -1));
                    executor_run((s.0, speed_limit, todo, c), speed_limit, c, board, events, i + 1)
                } else {
                    executor_run(
                        (s.0, (s.1 - 1) as u32, s.2, s.3),
                        speed_limit,
                        released(),
                        board,
                        events,
                        i + 1,
                    )
                }
            },
            Event::PiecePlaced { piece, .. } => (
                (s.0, s.1, s.2, Controller { hard_drop: false, ..s.3 }),
                released(),
                Some(piece),
            ),
            _ => executor_run(s, speed_limit, out, board, events, i + 1),
        }
    }
}

impl PieceMoveExecutor {
    /// The executor's state.
    pub closed spec fn state(&self) -> ExecutorState {
        (self.needs_hold, self.input_timer, self.executing@, self.controller)
    }

    /// Frames to wait between two presses.
    pub closed spec fn speed(&self) -> u32 {
        self.speed_limit
    }

    /// An executor for `to_do`, holding first when `hold` is set.
    pub fn new(hold: bool, to_do: VecDeque<PieceMovement>, speed_limit: u32) -> (e: Self)
        ensures
            e.state() == (hold, speed_limit, to_do@, released()),
            e.speed() == speed_limit,
    {
        PieceMoveExecutor {
            needs_hold: hold,
            executing: to_do,
            speed_limit,
            input_timer: speed_limit,
            controller: Controller::default(),
        }
    }

    fn input(&mut self, on_stack: bool)
        requires
            !old(self).needs_hold,
        ensures
            (final(self).executing@, final(self).controller) == input_step(
                false,
                old(self).executing@,
                old(self).controller,
                on_stack,
            ),
            final(self).needs_hold == old(self).needs_hold,
            final(self).input_timer == old(self).input_timer,
            final(self).speed_limit == old(self).speed_limit,
    {
        self.controller.hold = false;
        self.controller.hard_drop = false;
        if self.executing.len() == 0 {
            self.controller = Controller::default();
            self.controller.hard_drop = true;
            return;
        }
        match self.executing[0] {
            PieceMovement::SonicDrop => {
                self.controller.right = false;
                self.controller.rotate_left = false;
                self.controller.rotate_right = false;
                self.controller.left = false;
                self.controller.soft_drop = true;
                if on_stack {
                    self.executing.pop_front();
                    self.controller.soft_drop = false;
                }
            },
            PieceMovement::Left => {
                self.controller.right = false;
                self.controller.rotate_left = false;
                self.controller.rotate_right = false;
                self.controller.soft_drop = false;
                self.controller.left = !self.controller.left;
                if self.controller.left {
                    self.executing.pop_front();
                }
            },
            PieceMovement::Right => {
                self.controller.left = false;
                self.controller.rotate_left = false;
                self.controller.rotate_right = false;
                self.controller.soft_drop = false;
                self.controller.right = !self.controller.right;
                if self.controller.right {
                    self.executing.pop_front();
                }
            },
            PieceMovement::Cw => {
                self.controller.right = false;
                self.controller.rotate_left = false;
                self.controller.left = false;
                self.controller.soft_drop = false;
                self.controller.rotate_right = !self.controller.rotate_right;
                if self.controller.rotate_right {
                    self.executing.pop_front();
                }
            },
            PieceMovement::Ccw => {
                self.controller.left = false;
                self.controller.right = false;
                self.controller.rotate_right = false;
                self.controller.soft_drop = false;
                self.controller.rotate_left = !self.controller.rotate_left;
                if self.controller.rotate_left {
                    self.executing.pop_front();
                }
            },
        }
    }

    /// Reacts to the events of one frame: sets the buttons to press in `controller`, and returns
    /// the piece once it has been placed.
    pub fn update<R: Row>(
        &mut self,
        controller: &mut Controller,
        board: &Board<R>,
        events: &[Event],
    ) -> (placed: Option<FallingPiece>)
        requires
            board.inv(),
            forall|i: int|
                0 <= i < events@.len() ==> (#[trigger] events@[i] matches Event::PieceFalling(
                    p,
                    _,
                ) ==> p.in_range()),
        ensures
            ({
                let r = executor_run(
                    old(self).state(),
                    old(self).speed(),
                    *old(controller),
                    *board,
                    events@,
                    0,
                );
                &&& final(self).state() == r.0
                &&& *final(controller) == r.1
                &&& placed == r.2
            }),
            final(self).speed() == old(self).speed(),
    {
        let mut i: usize = 0;
        while i < events.len()
            invariant
                i <= events@.len(),
                board.inv(),
                self.speed_limit == old(self).speed_limit,
                forall|k: int|
                    0 <= k < events@.len() ==> (#[trigger] events@[k] matches Event::PieceFalling(
                        p,
                        _,
                    ) ==> p.in_range()),
                executor_run(self.state(), self.speed_limit, *controller, *board, events@, i as int)
                    == executor_run(
                    old(self).state(),
                    old(self).speed(),
                    *old(controller),
                    *board,
                    events@,
                    0,
                ),
            decreases events@.len() - i,
        {
            match &events[i] {
                Event::PieceHeld(_) => {
                    self.needs_hold = false;
                },
                Event::PieceFalling(piece, _) => {
                    assert(events@[i as int] matches Event::PieceFalling(p, _) ==> p.in_range());
                    if self.input_timer == 0 || self.controller.soft_drop {
                        if self.needs_hold {
                            self.controller.hold = !self.controller.hold;
                        } else {
                            let on_stack = board.on_stack(piece);
                            proof {
                                assert(on_stack == board.collides(*piece, 0, -1)) by {
                                    if on_stack {
                                        let k = choose|k: int| 0 <= k < 4 && occ_grid(board.grid(), piece.cell(k).0, piece.cell(k).1 - 1);
                                        assert(occ_grid(board.grid(), piece.cell(k).0 + 0, piece.cell(k).1 + -1));
                                    }
                                    if board.collides(*piece, 0, -1) {
                                        let k = choose|k: int| 0 <= k < 4 && #[trigger] occ_grid(board.grid(), piece.cell(k).0 + 0, piece.cell(k).1 + -1);
                                        assert(occ_grid(board.grid(), piece.cell(k).0, piece.cell(k).1 - 1));
                                    }
                                }
                            }
                            self.input(on_stack);
                        }
                        self.input_timer = self.speed_limit;
                        *controller = self.controller;
                    } else {
                        self.input_timer = self.input_timer - 1;
                        *controller = Controller::default();
                    }
                },
                Event::PiecePlaced { piece, .. } => {
                    self.controller.hard_drop = false;
                    *controller = Controller::default();
                    return Some(*piece);
                },
                _ => {},
            }
            i = i + 1;
        }
        None
    }
}

} // verus!
