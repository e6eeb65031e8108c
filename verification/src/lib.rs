pub mod piece;
pub mod piece_set;
pub mod row;
pub mod board;
pub mod rng;
pub mod controller;
pub mod executor;
pub mod bot_controller;
pub mod evaluation;
pub mod modes;
pub mod moves;
pub mod rotation;
pub mod config;
pub mod game;
pub mod frame;
pub mod misa;
pub mod opener_book;
pub mod rank;
pub mod dag;

use vstd::prelude::*;
use crate::piece::{FallingPiece, LockResult, Piece};
use crate::moves::{MovementMode, SpawnRule};
use crate::modes::pcloop::PcPriority;

verus! {

/// How the bot searches: how pieces move and appear, whether it may hold and guess the pieces
/// that are not known yet, whether it looks for perfect-clear loops, how many nodes it grows
/// before it moves and at most, and how many expansions it runs at once.
#[derive(Copy, Clone, Debug)]
pub struct Options {
    pub mode: MovementMode,
    pub spawn_rule: SpawnRule,
    pub use_hold: bool,
    pub speculate: bool,
    pub pcloop: Option<PcPriority>,
    pub min_nodes: u32,
    pub max_nodes: u32,
    pub threads: u32,
}

impl Default for Options {
    /// Zero gravity, pieces in row 19 or 20, hold and guessing on, no perfect-clear loop, no
    /// least number of nodes, at most four billion nodes, one expansion at a time.
    fn default() -> (o: Self)
        ensures
            o == (Options {
                mode: MovementMode::ZeroG,
                spawn_rule: SpawnRule::Row19Or20,
                use_hold: true,
                speculate: true,
                pcloop: None,
                min_nodes: 0,
                max_nodes: 4_000_000_000,
                threads: 1,
            }),
    {
        Options {
            mode: MovementMode::ZeroG,
            spawn_rule: SpawnRule::Row19Or20,
            use_hold: true,
            speculate: true,
            pcloop: None,
            min_nodes: 0,
            max_nodes: 4_000_000_000,
            threads: 1,
        }
    }
}

/// A message to a running bot: a new field and counters, a new piece in the queue, a request
/// for a move against the given incoming garbage, or a line to look at first.
pub enum BotMsg {
    Reset { field: [[bool; 10]; 40], b2b: bool, combo: u32 },
    NewPiece(Piece),
    NextMove(u32),
    ForceAnalysisLine(Vec<FallingPiece>),
}

/// What a bot reports along with a move.
#[derive(Clone, Debug, PartialEq, Eq, Hash)]
pub enum Info {
    Normal(modes::normal::Info),
    Book,
    PcLoop(modes::pcloop::Info),
}

impl Info {
    /// The line the bot expects to play; empty for a move from the opening book.
    pub fn plan(&self) -> (p: &[(FallingPiece, LockResult)])
        ensures
            p@ == match self {
                Info::Normal(info) => info.plan@,
                Info::PcLoop(info) => info.plan@,
                Info::Book => Seq::<(FallingPiece, LockResult)>::empty(),
            },
    {
        match self {
            Info::Normal(info) => info.plan.as_slice(),
            Info::PcLoop(info) => info.plan.as_slice(),
            Info::Book => &[],
        }
    }
}

/// Whether a bot is still thinking about its next move or has died.
#[derive(Copy, Clone, Debug, PartialEq, Eq, Hash, Structural)]
pub enum BotPollState {
    Waiting,
    Dead,
}

} // verus!
