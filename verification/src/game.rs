use vstd::prelude::*;
use crate::config::GameConfig;
use crate::controller::{Controller, update_input};
use crate::executor::Event;
use crate::board::{Board, garbage_row, row_empty};
use crate::piece::{FallingPiece, LockResult};

verus! {

/// The input side of a game: the buttons of the previous frame, the presses still to be acted
/// on, the auto-shift counters and which of left and right was pressed last.
#[derive(Copy, Clone, Debug, PartialEq, Eq, Structural)]
pub struct InputState {
    pub prev: Controller,
    pub used: Controller,
    pub left_das: u32,
    pub right_das: u32,
    pub going_right: bool,
}

/// `used` after a frame on which the button was `prev` and is now `current`.
pub open spec fn used_after(used: bool, prev: bool, current: bool) -> bool {
    if !current {
        false
    } else if !prev {
        true
    } else {
        used
    }
}

/// One auto-shift counter over a frame on which its button is `held`. While the key is held
/// but its shift is pending or blocked by the other direction, the counter counts down to the
/// repeat rate; otherwise it counts down to zero, at which point the shift fires and the counter
/// restarts at the repeat rate. Releasing the key resets it to the initial delay.
pub open spec fn das_step(
    das: u32,
    held: bool,
    waiting: bool,
    config: GameConfig,
) -> (u32, bool) {
    if !held {
        (config.delayed_auto_shift, false)
    } else if waiting {
        (
            if das > config.auto_repeat_rate {
                (das - 1) as u32
            } else {
                config.auto_repeat_rate
            },
            false,
        )
    } else {
        let d = if das != 0 {
            (das - 1) as u32
        } else {
            0u32
        };
        if d == 0 {
            (config.auto_repeat_rate, true)
        } else {
            (d, false)
        }
    }
}

/// The presses still to be acted on after a frame with the buttons `current`, and which of
/// left and right was pressed last: new presses count, released buttons stop counting, and
/// pressing one direction cancels a pending shift the other way.
pub open spec fn presses_spec(s: InputState, current: Controller) -> (Controller, bool) {
    let u0 = Controller {
        left: used_after(s.used.left, s.prev.left, current.left),
        right: used_after(s.used.right, s.prev.right, current.right),
        rotate_right: used_after(s.used.rotate_right, s.prev.rotate_right, current.rotate_right),
        rotate_left: used_after(s.used.rotate_left, s.prev.rotate_left, current.rotate_left),
        soft_drop: current.soft_drop,
        hold: used_after(s.used.hold, s.prev.hold, current.hold),
        hard_drop: !s.prev.hard_drop && current.hard_drop,
    };
    if !s.prev.left && current.left {
        (Controller { right: false, ..u0 }, false)
    } else if !s.prev.right && current.right {
        (Controller { left: false, ..u0 }, true)
    } else {
        (u0, s.going_right)
    }
}

/// The input state after a frame with the buttons `current`.
pub open spec fn input_spec(s: InputState, current: Controller, config: GameConfig) -> InputState {
    let (u1, going_right) = presses_spec(s, current);
    let l = das_step(s.left_das, current.left, u1.left || current.right && going_right, config);
    let u2 = Controller { left: u1.left || l.1, ..u1 };
    let r = das_step(
        s.right_das,
        current.right,
        u2.right || current.left && !going_right,
        config,
    );
    let u3 = Controller { right: u2.right || r.1, ..u2 };
    InputState { prev: current, used: u3, left_das: l.0, right_das: r.0, going_right }
}

/// One auto-shift counter over a frame, as `das_step` describes; returns whether the shift
/// fires.
fn das_update(das: &mut u32, held: bool, waiting: bool, config: &GameConfig) -> (fire: bool)
    ensures
        (*final(das), fire) == das_step(*old(das), held, waiting, *config),
{
    if held {
        if waiting {
            if *das > config.auto_repeat_rate {
                *das = *das - 1;
            } else {
                *das = config.auto_repeat_rate;
            }
            false
        } else {
            if *das != 0 {
                *das = *das - 1;
            }
            if *das == 0 {
                *das = config.auto_repeat_rate;
                true
            } else {
                false
            }
        }
    } else {
        *das = config.delayed_auto_shift;
        false
    }
}

impl InputState {
    /// The state at the start of a game: nothing held, counters at the initial delay.
    pub fn new(config: &GameConfig) -> (s: InputState)
        ensures
            s.prev == crate::executor::released(),
            s.used == crate::executor::released(),
            s.left_das == config.delayed_auto_shift,
            s.right_das == config.delayed_auto_shift,
            !s.going_right,
    {
        InputState {
            prev: Controller::default(),
            used: Controller::default(),
            left_das: config.delayed_auto_shift,
            right_das: config.delayed_auto_shift,
            going_right: false,
        }
    }

    /// Records the presses of a new frame, as `presses_spec` describes.
    fn record_presses(&mut self, current: Controller)
        ensures
            (final(self).used, final(self).going_right) == presses_spec(*old(self), current),
            final(self).prev == old(self).prev,
            final(self).left_das == old(self).left_das,
            final(self).right_das == old(self).right_das,
    {
        let mut used = self.used;
        update_input(&mut used.left, self.prev.left, current.left);
        update_input(&mut used.right, self.prev.right, current.right);
        update_input(&mut used.rotate_right, self.prev.rotate_right, current.rotate_right);
        update_input(&mut used.rotate_left, self.prev.rotate_left, current.rotate_left);
        update_input(&mut used.soft_drop, self.prev.soft_drop, current.soft_drop);
        update_input(&mut used.hold, self.prev.hold, current.hold);
        used.hard_drop = !self.prev.hard_drop && current.hard_drop;
        used.soft_drop = current.soft_drop;
        if !self.prev.left && current.left {
            self.going_right = false;
            used.right = false;
        } else if !self.prev.right && current.right {
            self.going_right = true;
            used.left = false;
        }
        self.used = used;
    }

    /// Takes in the buttons of a new frame: records new presses, keeps track of which side was
    /// pressed last and runs the auto-shift counters, as `input_spec` describes.
    pub fn update(&mut self, current: Controller, config: &GameConfig)
        ensures
            *final(self) == input_spec(*old(self), current, *config),
    {
        self.record_presses(current);
        let waiting_left = self.used.left || current.right && self.going_right;
        let mut left_das = self.left_das;
        if das_update(&mut left_das, current.left, waiting_left, config) {
            self.used.left = true;
        }
        self.left_das = left_das;
        let waiting_right = self.used.right || current.left && !self.going_right;
        let mut right_das = self.right_das;
        if das_update(&mut right_das, current.right, waiting_right, config) {
            self.used.right = true;
        }
        self.right_das = right_das;
        self.prev = current;
    }
}

/// The auto-shift counters never exceed the larger of the initial delay and the repeat rate.
pub proof fn lemma_das_bounded(s: InputState, current: Controller, config: GameConfig)
    requires
        s.left_das <= config.delayed_auto_shift || s.left_das <= config.auto_repeat_rate,
        s.right_das <= config.delayed_auto_shift || s.right_das <= config.auto_repeat_rate,
    ensures
        input_spec(s, current, config).left_das <= config.delayed_auto_shift || input_spec(
            s,
            current,
            config,
        ).left_das <= config.auto_repeat_rate,
        input_spec(s, current, config).right_das <= config.delayed_auto_shift || input_spec(
            s,
            current,
            config,
        ).right_das <= config.auto_repeat_rate,
{
}

/// The garbage a player has coming in and the attack it is sending out.
#[derive(Copy, Clone, Debug, PartialEq, Eq, Structural)]
pub struct GarbageCounters {
    pub garbage_queue: u32,
    pub attacking: u32,
}

/// What dealing with garbage at the end of a placement does.
#[derive(Copy, Clone, Debug, PartialEq, Eq, Structural)]
pub enum GarbageOutcome {
    /// This many lines of garbage are added to the board.
    Added(u32),
    /// This much attack is sent to the opponent.
    Sent(u32),
    /// Nothing happens.
    Nothing,
}

/// Dealing with garbage: outgoing attack cancels incoming garbage; then up to `max_add` lines
/// of what is still coming are added to the board, or, when nothing is coming, the remaining
/// attack is sent.
pub open spec fn deal_spec(g: GarbageCounters, max_add: u32) -> (GarbageCounters, GarbageOutcome) {
    if g.attacking > g.garbage_queue {
        (
            GarbageCounters { garbage_queue: 0, attacking: 0 },
            GarbageOutcome::Sent((g.attacking - g.garbage_queue) as u32),
        )
    } else {
        let rest = g.garbage_queue - g.attacking;
        let n = if rest < max_add {
            rest
        } else {
            max_add as int
        };
        (
            GarbageCounters { garbage_queue: (rest - n) as u32, attacking: 0 },
            if rest > 0 {
                GarbageOutcome::Added(n as u32)
            } else {
                GarbageOutcome::Nothing
            },
        )
    }
}

impl GarbageCounters {
    /// Deals with garbage at the end of a placement, as `deal_spec` describes.
    pub fn deal(&mut self, max_add: u32) -> (o: GarbageOutcome)
        ensures
            (*final(self), o) == deal_spec(*old(self), max_add),
    {
        if self.attacking > self.garbage_queue {
            self.attacking = self.attacking - self.garbage_queue;
            self.garbage_queue = 0;
        } else {
            self.garbage_queue = self.garbage_queue - self.attacking;
            self.attacking = 0;
        }
        if self.garbage_queue > 0 {
            let n = if self.garbage_queue < max_add {
                self.garbage_queue
            } else {
                max_add
            };
            self.garbage_queue = self.garbage_queue - n;
            GarbageOutcome::Added(n)
        } else if self.attacking > 0 {
            let sent = self.attacking;
            self.attacking = 0;
            GarbageOutcome::Sent(sent)
        } else {
            GarbageOutcome::Nothing
        }
    }
}

/// Dealing with garbage leaves no outgoing attack, lets at most `max_add` lines in, and
/// accounts for every line: what comes in plus what cancelled equals what was queued, and what
/// is sent plus what cancelled equals the attack.
pub proof fn lemma_deal_settles(g: GarbageCounters, max_add: u32)
    ensures
        deal_spec(g, max_add).0.attacking == 0,
        deal_spec(g, max_add).1 matches GarbageOutcome::Added(n) ==> n <= max_add
            && deal_spec(g, max_add).0.garbage_queue + n + g.attacking == g.garbage_queue,
        deal_spec(g, max_add).1 matches GarbageOutcome::Sent(a) ==> a + g.garbage_queue
            == g.attacking && deal_spec(g, max_add).0.garbage_queue == 0,
        deal_spec(g, max_add).1 is Nothing ==> g.attacking == g.garbage_queue && deal_spec(
            g,
            max_add,
        ).0.garbage_queue == 0,
{
}

/// The grid after garbage rows open in the columns `cols` are pushed in from the bottom one
/// after the other, each pushing the top row out.
pub open spec fn pushed_garbage(g: Seq<Seq<bool>>, cols: Seq<usize>) -> Seq<Seq<bool>>
    decreases cols.len(),
{
    if cols.len() == 0 {
        g
    } else {
        seq![garbage_row(cols.last() as int)] + pushed_garbage(g, cols.drop_last()).take(39)
    }
}

/// Pushing in the garbage rows of `cols` one after the other pushes a row with a filled cell
/// out of the top.
pub open spec fn garbage_kills(g: Seq<Seq<bool>>, cols: Seq<usize>) -> bool {
    exists|k: int| 0 <= k < cols.len() && !row_empty(#[trigger] pushed_garbage(g, cols.take(k))[39])
}

/// Pushes in garbage rows open in the columns `columns`, one after the other, as dealing
/// garbage adds them; returns whether one pushed a filled row out of the top. Then the game is
/// over, and the rows after that one are not added.
pub fn add_garbage_rows(board: &mut Board, columns: &Vec<usize>) -> (dead: bool)
    requires
        old(board).wf(),
    ensures
        final(board).inv(),
        dead == garbage_kills(old(board).grid(), columns@),
        !dead ==> final(board).wf() && final(board).grid() == pushed_garbage(old(board).grid(), columns@),
        dead ==> exists|k: int|
            0 <= k < columns@.len() && final(board).grid() == pushed_garbage(old(board).grid(), columns@.take(k + 1))
                && !row_empty(#[trigger] pushed_garbage(old(board).grid(), columns@.take(k))[39]),
        final(board).queue() == old(board).queue(),
        final(board).hold_of() == old(board).hold_of(),
        final(board).bag_of() == old(board).bag_of(),
        final(board).combo_of() == old(board).combo_of(),
        final(board).b2b_of() == old(board).b2b_of(),
{
    let ghost g0 = board.grid();
    let mut i: usize = 0;
    assert(columns@.take(0) =~= Seq::<usize>::empty());
    while i < columns.len()
        invariant
            i <= columns@.len(),
            board.wf(),
            board.grid() == pushed_garbage(g0, columns@.take(i as int)),
            forall|j: int| 0 <= j < i ==> row_empty(#[trigger] pushed_garbage(g0, columns@.take(j))[39]),
            g0 == old(board).grid(),
            board.queue() == old(board).queue(),
            board.hold_of() == old(board).hold_of(),
            board.bag_of() == old(board).bag_of(),
            board.combo_of() == old(board).combo_of(),
            board.b2b_of() == old(board).b2b_of(),
        decreases columns@.len() - i,
    {
        let ghost before = board.grid();
        let dead = board.add_garbage(columns[i]);
        proof {
            assert(columns@.take(i + 1).drop_last() =~= columns@.take(i as int));
            assert(columns@.take(i + 1).last() == columns@[i as int]);
            assert(board.grid() == pushed_garbage(g0, columns@.take(i + 1)));
        }
        if dead {
            proof {
                assert(!row_empty(pushed_garbage(g0, columns@.take(i as int))[39]));
            }
            return true;
        }
        i = i + 1;
    }
    proof {
        assert(columns@.take(columns@.len() as int) =~= columns@);
        if garbage_kills(g0, columns@) {
            let k = choose|k: int| 0 <= k < columns@.len() && !row_empty(#[trigger] pushed_garbage(g0, columns@.take(k))[39]);
            assert(row_empty(pushed_garbage(g0, columns@.take(k))[39]));
        }
    }
    false
}

/// The events that dealing garbage reports, and whether it ends the game: attack sent is
/// reported; garbage added reports the columns its rows leave open and, when a row pushed a
/// filled row out of the top, ends the game.
pub fn garbage_events(outcome: GarbageOutcome, columns: Vec<usize>, dead: bool) -> (r: (Vec<Event>, bool))
    ensures
        r.0@ == match outcome {
            GarbageOutcome::Sent(a) => seq![Event::GarbageSent(a)],
            GarbageOutcome::Added(_) => if dead {
                seq![Event::GarbageAdded(columns), Event::GameOver]
            } else {
                seq![Event::GarbageAdded(columns)]
            },
            GarbageOutcome::Nothing => Seq::<Event>::empty(),
        },
        r.1 == (outcome is Added && dead),
{
    let mut events: Vec<Event> = Vec::new();
    match outcome {
        GarbageOutcome::Sent(a) => {
            events.push(Event::GarbageSent(a));
        },
        GarbageOutcome::Added(_) => {
            events.push(Event::GarbageAdded(columns));
            if dead {
                events.push(Event::GameOver);
            }
        },
        GarbageOutcome::Nothing => {},
    }
    let over = match outcome {
        GarbageOutcome::Added(_) => dead,
        _ => false,
    };
    proof {
        match outcome {
            GarbageOutcome::Sent(a) => assert(events@ =~= seq![Event::GarbageSent(a)]),
            GarbageOutcome::Added(_) => {
                if dead {
                    assert(events@ =~= seq![Event::GarbageAdded(columns), Event::GameOver]);
                } else {
                    assert(events@ =~= seq![Event::GarbageAdded(columns)]);
                }
            },
            GarbageOutcome::Nothing => assert(events@ =~= Seq::<Event>::empty()),
        }
    }
    (events, over)
}

/// The state of a falling piece: where it is, the lowest row it reached, the moves it made
/// since, and its gravity, lock delay and soft drop counters.
#[derive(Copy, Clone, Debug, PartialEq, Eq, Structural)]
pub struct FallingState {
    pub piece: FallingPiece,
    pub lowest_y: i32,
    pub rotation_move_count: u32,
    pub gravity: i32,
    pub lock_delay: u32,
    pub soft_drop_delay: u32,
}

/// What a game is doing.
#[derive(Copy, Clone, Debug, PartialEq, Eq, Structural)]
pub enum GameState {
    /// Waiting this many more frames before the next piece spawns.
    SpawnDelay(u32),
    /// Waiting this many more frames for cleared lines to go away.
    LineClearDelay(u32),
    /// A piece is falling.
    Falling(FallingState),
    /// The game is over.
    GameOver,
}

/// One frame of a state that waits: the next state, what the frame reports, and whether
/// garbage is dealt now. A spawn delay counts down and reports its first and last frames; a
/// finished line clear delay starts the spawn delay and lets garbage in; a game that is over
/// stays over.
pub open spec fn wait_spec(state: GameState, config: GameConfig) -> (GameState, Seq<Event>, bool) {
    match state {
        GameState::SpawnDelay(d) => {
            let left = (d - 1) as u32;
            (
                GameState::SpawnDelay(left),
                (if left == 0 {
                    seq![Event::FrameBeforePieceSpawns]
                } else {
                    Seq::empty()
                }) + (if d == config.spawn_delay {
                    seq![Event::SpawnDelayStart]
                } else {
                    Seq::empty()
                }),
                false,
            )
        },
        GameState::LineClearDelay(d) => if d == 0 {
            (
                GameState::SpawnDelay(config.spawn_delay),
                seq![Event::EndOfLineClearDelay],
                true,
            )
        } else {
            (GameState::LineClearDelay((d - 1) as u32), Seq::empty(), false)
        },
        _ => (state, seq![Event::GameOver], false),
    }
}

/// Runs one frame of a state that waits, as `wait_spec` describes. A spawn delay that has run
/// out, and a falling piece, are handled by the piece logic instead.
pub fn wait_frame(state: &mut GameState, config: &GameConfig) -> (r: (Vec<Event>, bool))
    requires
        match *old(state) {
            GameState::SpawnDelay(d) => d > 0,
            GameState::Falling(_) => false,
            _ => true,
        },
    ensures
        (*final(state), r.0@, r.1) == wait_spec(*old(state), *config),
{
    match *state {
        GameState::SpawnDelay(d) => {
            let left = d - 1;
            *state = GameState::SpawnDelay(left);
            let mut events = Vec::new();
            if left == 0 {
                events.push(Event::FrameBeforePieceSpawns);
            }
            if left + 1 == config.spawn_delay {
                events.push(Event::SpawnDelayStart);
            }
            proof {
                let a: Seq<Event> = if left == 0 {
                    seq![Event::FrameBeforePieceSpawns]
                } else {
                    Seq::empty()
                };
                let b: Seq<Event> = if d == config.spawn_delay {
                    seq![Event::SpawnDelayStart]
                } else {
                    Seq::empty()
                };
                assert(events@ =~= a + b);
            }
            (events, false)
        },
        GameState::LineClearDelay(d) => {
            if d == 0 {
                *state = GameState::SpawnDelay(config.spawn_delay);
                let mut events = Vec::new();
                events.push(Event::EndOfLineClearDelay);
                assert(events@ =~= seq![Event::EndOfLineClearDelay]);
                (events, true)
            } else {
                *state = GameState::LineClearDelay(d - 1);
                (Vec::new(), false)
            }
        },
        _ => {
            let mut events = Vec::new();
            events.push(Event::GameOver);
            assert(events@ =~= seq![Event::GameOver]);
            (events, false)
        },
    }
}

/// A finished game stays finished: each frame of a game that is over leaves it over, reports
/// exactly one game-over event and deals no garbage.
pub proof fn lemma_game_over_absorbing(config: GameConfig)
    ensures
        wait_spec(GameState::GameOver, config) == (GameState::GameOver, seq![Event::GameOver], false),
{
}

/// What locking a piece does to the game: a lock out ends it; a placement without a line clear
/// starts the spawn delay and lets garbage in; a line clear adds its garbage to the attack and
/// starts the line clear delay.
pub open spec fn after_lock_spec(lock: LockResult, attacking: u32, config: GameConfig) -> (GameState, u32, bool) {
    if lock.locked_out {
        (GameState::GameOver, attacking, false)
    } else if lock.cleared_lines@.len() == 0 {
        (GameState::SpawnDelay(config.spawn_delay), attacking, true)
    } else {
        (
            GameState::LineClearDelay(config.line_clear_delay),
            (attacking + lock.garbage_sent) as u32,
            false,
        )
    }
}

/// Settles the game after a lock, as `after_lock_spec` describes: gives the next state and
/// whether garbage is dealt now, and updates the attack.
pub fn after_lock(lock: &LockResult, counters: &mut GarbageCounters, config: &GameConfig) -> (r: (
    GameState,
    bool,
))
    requires
        old(counters).attacking + lock.garbage_sent <= u32::MAX,
    ensures
        (r.0, final(counters).attacking, r.1) == after_lock_spec(*lock, old(counters).attacking, *config),
        final(counters).garbage_queue == old(counters).garbage_queue,
{
    if lock.locked_out {
        (GameState::GameOver, false)
    } else if lock.cleared_lines.len() == 0 {
        (GameState::SpawnDelay(config.spawn_delay), true)
    } else {
        counters.attacking = counters.attacking + lock.garbage_sent;
        (GameState::LineClearDelay(config.line_clear_delay), false)
    }
}

} // verus!
