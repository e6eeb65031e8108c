use vstd::prelude::*;

verus! {

/// The timing and rules of a game; times are in ticks.
#[derive(Copy, Clone, Debug, Hash, Eq, PartialEq, Structural)]
pub struct GameConfig {
    pub spawn_delay: u32,
    pub line_clear_delay: u32,
    pub delayed_auto_shift: u32,
    pub auto_repeat_rate: u32,
    pub soft_drop_speed: u32,
    pub lock_delay: u32,
    pub margin_time: Option<u32>,
    /// Measured in 1/100 of a tick.
    pub gravity: i32,
    pub next_queue_size: u32,
    pub max_garbage_add: u32,
    pub move_lock_rule: u32,
}

impl Default for GameConfig {
    /// Timing that approximates Puyo Puyo Tetris.
    fn default() -> (c: GameConfig)
        ensures
            c.spawn_delay == 7,
            c.line_clear_delay == 45,
            c.delayed_auto_shift == 12,
            c.auto_repeat_rate == 2,
            c.soft_drop_speed == 2,
            c.lock_delay == 30,
            c.margin_time == None::<u32>,
            c.gravity == 4500,
            c.next_queue_size == 5,
            c.max_garbage_add == 10,
            c.move_lock_rule == 15,
    {
        GameConfig {
            spawn_delay: 7,
            line_clear_delay: 45,
            delayed_auto_shift: 12,
            auto_repeat_rate: 2,
            soft_drop_speed: 2,
            lock_delay: 30,
            margin_time: None,
            gravity: 4500,
            next_queue_size: 5,
            max_garbage_add: 10,
            move_lock_rule: 15,
        }
    }
}

} // verus!
