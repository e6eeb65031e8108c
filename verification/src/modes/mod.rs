//! The bot's modes of play and the loop step that drives the current one.
pub mod normal;
pub mod pcloop;

use vstd::prelude::*;
use crate::{BotMsg, Options};
use crate::board::Board;
use crate::dag::{MAX_GENERATIONS, candidates_of, garbage_rise, piece_filed, plan_of, reset_to};
use crate::moves::{MovementMode, Placement};
use crate::piece::{FallingPiece, LockResult};
use crate::evaluation::MoveCandidate;
use crate::evaluation::standard::{Standard, Value, is_pick};
use crate::modes::normal::{BotState, Info, ThinkResult, Thinker, dead_root, placements, result_boards_wf, root_fresh, shift_line};

verus! {

/// The mode the bot plays in.
pub enum Mode {
    Normal(BotState),
}

/// A piece of work for a worker: a leaf to expand.
pub enum Task {
    NormalThink(Thinker),
}

/// What a worker found.
pub enum TaskResult {
    NormalThink(ThinkResult),
}

/// A bot in some mode, with its options and the garbage count of a requested move, if one was
/// requested and not yet made.
pub struct ModeSwitchedBot {
    mode: Mode,
    options: Options,
    do_move: Option<u32>,
}

impl ModeSwitchedBot {
    /// The bot of the normal mode.
    pub closed spec fn bot(&self) -> BotState {
        match self.mode {
            Mode::Normal(b) => b,
        }
    }

    /// The options.
    pub closed spec fn options_of(&self) -> Options {
        self.options
    }

    /// The incoming garbage of the move requested and not yet made.
    pub closed spec fn pending(&self) -> Option<u32> {
        self.do_move
    }

    /// The bot is well formed.
    pub open spec fn wf(&self) -> bool {
        &&& self.bot().wf()
        &&& self.bot().options_of() == self.options_of()
    }

    /// Starts a bot on `board` in the normal mode.
    pub fn new(board: Board, options: Options) -> (b: ModeSwitchedBot)
        requires
            board.wf(),
            options.use_hold && board.hold_of() is None ==> board.queue().len() >= 1,
            board.queue().len() <= MAX_GENERATIONS,
        ensures
            b.wf(),
            crate::dag::made_for(b.bot().tree_of(), board, options.use_hold),
            b.bot().lines().len() == 0,
            b.bot().outstanding() == 0,
            b.options_of() == options,
            b.pending() is None,
    {
        ModeSwitchedBot { mode: Mode::Normal(BotState::new(board, options)), options, do_move: None }
    }

    /// The bot's search has no move left: its root has no children.
    pub fn is_dead(&self) -> (b: bool)
        requires
            self.wf(),
        ensures
            b == dead_root(self.bot().tree_of()),
    {
        match &self.mode {
            Mode::Normal(bot) => bot.is_dead(),
        }
    }

    /// A reset can be handed to the bot now.
    pub fn can_reset(&self) -> (b: bool)
        requires
            self.wf(),
        ensures
            b == self.bot().resettable(),
    {
        match &self.mode {
            Mode::Normal(bot) => bot.can_reset(),
        }
    }

    /// Hands a worker's result to the mode.
    pub fn task_complete(&mut self, result: TaskResult)
        requires
            old(self).wf(),
            old(self).bot().outstanding() > 0,
            result matches TaskResult::NormalThink(r) && result_boards_wf(r),
        ensures
            final(self).wf(),
            final(self).options_of() == old(self).options_of(),
            final(self).pending() == old(self).pending(),
            final(self).bot().outstanding() == old(self).bot().outstanding() - 1,
            final(self).bot().lines() == old(self).bot().lines(),
    {
        match &mut self.mode {
            Mode::Normal(bot) => match result {
                TaskResult::NormalThink(r) => bot.finish_thinking(r),
            },
        }
    }

    /// Handles a message: a reset, a new piece, a request for a move, or a line to look at
    /// first.
    pub fn message(&mut self, msg: BotMsg)
        requires
            old(self).wf(),
            msg is Reset ==> old(self).bot().resettable(),
        ensures
            final(self).wf(),
            final(self).options_of() == old(self).options_of(),
            final(self).bot().outstanding() == old(self).bot().outstanding(),
            match msg {
                BotMsg::NextMove(incoming) => final(self).pending() == Some(incoming)
                    && final(self).bot() == old(self).bot(),
                BotMsg::ForceAnalysisLine(path) => final(self).pending() == old(self).pending()
                    && final(self).bot().tree_of() == old(self).bot().tree_of()
                    && final(self).bot().lines() == old(self).bot().lines().push(path@),
                BotMsg::NewPiece(piece) => {
                    &&& final(self).pending() == old(self).pending()
                    &&& final(self).bot().lines() == old(self).bot().lines()
                    &&& old(self).bot().tree_of().gen_count() < MAX_GENERATIONS ==> piece_filed(
                        final(self).bot().tree_of(),
                        old(self).bot().tree_of(),
                        piece,
                    )
                    &&& old(self).bot().tree_of().gen_count() >= MAX_GENERATIONS ==> final(self).bot().tree_of()
                        == old(self).bot().tree_of()
                },
                BotMsg::Reset { field, b2b, combo } => {
                    let t = old(self).bot().tree_of();
                    let rise = garbage_rise(t, field, b2b, combo);
                    &&& final(self).pending() == old(self).pending()
                    &&& reset_to(final(self).bot().tree_of(), t, field, b2b, combo, rise)
                    &&& exists|plan: Seq<(FallingPiece, LockResult)>| {
                        &&& #[trigger] plan_of(t, plan)
                        &&& match rise {
                            Some(d) => {
                                &&& final(self).bot().lines().len() == old(self).bot().lines().len() + 1
                                &&& forall|i: int| 0 <= i < old(self).bot().lines().len() ==> #[trigger] final(self).bot().lines()[i]
                                    == shift_line(old(self).bot().lines()[i], d)
                                &&& final(self).bot().lines().last() == shift_line(placements(plan), d)
                            },
                            None => final(self).bot().lines().len() == 0,
                        }
                    }
                },
            },
    {
        match msg {
            BotMsg::Reset { field, b2b, combo } => match &mut self.mode {
                Mode::Normal(bot) => bot.reset(field, b2b, combo),
            },
            BotMsg::NewPiece(piece) => match &mut self.mode {
                Mode::Normal(bot) => bot.add_next_piece(piece),
            },
            BotMsg::NextMove(incoming) => self.do_move = Some(incoming),
            BotMsg::ForceAnalysisLine(path) => match &mut self.mode {
                Mode::Normal(bot) => bot.force_analysis_line(path),
            },
        }
    }

    /// One step of the bot's loop: makes the requested move if it can be made, then hands
    /// out up to ten expansions, stopping once as many are out as there are threads or when
    /// no more can be handed out. Returns the move made, if any, and the expansions.
    pub fn think(&mut self, eval: &Standard) -> (r: (Option<(MoveCandidate<Value>, Info)>, Vec<Task>))
        requires
            old(self).wf(),
        ensures
            final(self).wf(),
            final(self).options_of() == old(self).options_of(),
            old(self).pending() is None ==> r.0 is None,
            r.0 is Some ==> final(self).pending() is None,
            r.0 is None ==> final(self).pending() == old(self).pending(),
            ({
                let t = old(self).bot().tree_of();
                (old(self).pending() is Some && old(self).bot().min_reached() && t.passed() < u32::MAX
                    && exists|cands: Seq<MoveCandidate<Value>>| candidates_of(t, cands) && cands.len() > 0)
                    ==> r.0 is Some
            }),
            r.0 matches Some((c, _)) ==> (old(self).pending() matches Some(inc) && exists|cands: Seq<MoveCandidate<Value>>, k: int|
                candidates_of(old(self).bot().tree_of(), cands) && is_pick(cands, inc, k) && c == cands[k]),
            r.1@.len() <= 10,
            final(self).bot().outstanding() == old(self).bot().outstanding() + r.1@.len(),
            r.1@.len() > 0 ==> final(self).bot().outstanding() <= old(self).options_of().threads,
            forall|i: int| 0 <= i < r.1@.len() ==> (#[trigger] r.1@[i] matches Task::NormalThink(th)
                && th.wf() && th.options_of() == old(self).options_of()),
            r.0 is None && old(self).bot().outstanding() < old(self).options_of().threads && old(self).bot().thinkable()
                && root_fresh(old(self).bot().tree_of()) ==> r.1@.len() > 0,
    {
        let mut made = None;
        match &mut self.mode {
            Mode::Normal(bot) => {
                if let Some(incoming) = self.do_move {
                    made = bot.next_move(eval, incoming);
                    if made.is_some() {
                        self.do_move = None;
                    }
                }
            },
        }
        let mut thinks: Vec<Task> = Vec::new();
        let threads = self.options.threads;
        let ghost start = self.bot().outstanding();
        let ghost pend = self.pending();
        let ghost b0 = self.bot();
        let mut n: usize = 0;
        while n < 10
            invariant
                self.wf(),
                self.options_of() == old(self).options_of(),
                self.pending() == pend,
                start == old(self).bot().outstanding(),
                old(self).pending() is None ==> made is None,
                made is Some ==> pend is None,
                made is None ==> pend == old(self).pending(),
                ({
                    let t = old(self).bot().tree_of();
                    (old(self).pending() is Some && old(self).bot().min_reached() && t.passed() < u32::MAX
                        && exists|cands: Seq<MoveCandidate<Value>>| candidates_of(t, cands) && cands.len() > 0)
                        ==> made is Some
                }),
                made matches Some((c, _)) ==> (old(self).pending() matches Some(inc) && exists|cands: Seq<MoveCandidate<Value>>, k: int|
                    candidates_of(old(self).bot().tree_of(), cands) && is_pick(cands, inc, k) && c == cands[k]),
                self.options_of().threads == threads,
                n <= 10,
                thinks@.len() <= n,
                self.bot().outstanding() == start + thinks@.len(),
                thinks@.len() > 0 ==> self.bot().outstanding() <= threads,
                forall|i: int| 0 <= i < thinks@.len() ==> (#[trigger] thinks@[i] matches Task::NormalThink(th)
                    && th.wf() && th.options_of() == self.options_of()),
                made is None ==> b0.tree_of() == old(self).bot().tree_of() && b0.lines() == old(self).bot().lines()
                    && b0.outstanding() == old(self).bot().outstanding() && b0.options_of() == old(self).bot().options_of(),
                n == 0 ==> self.bot() == b0,
                (n > 0 && b0.outstanding() < threads && b0.thinkable() && root_fresh(b0.tree_of())) ==> thinks@.len() > 0,
            decreases 10 - n,
        {
            match &mut self.mode {
                Mode::Normal(bot) => {
                    if bot.outstanding_count() >= threads {
                        return (made, thinks);
                    }
                    match bot.think() {
                        Ok(thinker) => thinks.push(Task::NormalThink(thinker)),
                        Err(false) => return (made, thinks),
                        Err(true) => {},
                    }
                },
            }
            n = n + 1;
        }
        (made, thinks)
    }
}

impl Task {
    /// Runs the task: expands the leaf with `eval` and the movement search `find_moves`.
    pub fn execute<M: Fn(&Board, FallingPiece, MovementMode) -> Vec<Placement>>(
        self,
        eval: &Standard,
        find_moves: &M,
    ) -> (r: TaskResult)
        requires
            self matches Task::NormalThink(th) && th.wf(),
            forall|b: Board, p: FallingPiece, m: MovementMode| #[trigger] find_moves.requires((&b, p, m)),
        ensures
            match (self, r) {
                (Task::NormalThink(th), TaskResult::NormalThink(res)) => {
                    &&& result_boards_wf(res)
                    &&& match res {
                        ThinkResult::Known(node, _) => node == th.node_of(),
                        ThinkResult::Speculated(node, _) => node == th.node_of(),
                        ThinkResult::Unmark(node) => node == th.node_of(),
                    }
                },
            },
    {
        match self {
            Task::NormalThink(thinker) => TaskResult::NormalThink(thinker.think(eval, find_moves)),
        }
    }
}

} // verus!
