//! Shared, store-scoped resources: the input queue, the play state with its
//! move counter, and the clock.

use vstd::prelude::*;
use vstd::string::StringExecFns;

verus! {

/// A key code as the simulation sees it: one of the four movement directions,
/// or any other key, which the resolver consumes but ignores.
#[derive(Clone, Copy, Debug, PartialEq, Eq, Structural)]
pub enum KeyCode {
    Up,
    Down,
    Left,
    Right,
    Other,
}

/// Ordered pending key presses, oldest first. The resolver pops from the
/// back, so the most recently pressed key is processed first.
pub struct InputQueue {
    pub keys_pressed: Vec<KeyCode>,
}

impl Default for InputQueue {
    fn default() -> (q: Self)
        ensures
            q.keys_pressed@ == Seq::<KeyCode>::empty(),
    {
        InputQueue { keys_pressed: Vec::new() }
    }
}

/// Whether the puzzle is still being played or has been solved.
#[derive(Clone, Copy, Debug, PartialEq, Eq, Structural)]
pub enum GamePlayState {
    Playing,
    Won,
}

impl Default for GamePlayState {
    fn default() -> (s: Self)
        ensures
            s == GamePlayState::Playing,
    {
        GamePlayState::Playing
    }
}

impl GamePlayState {
    pub open spec fn spec_name(&self) -> Seq<char> {
        match *self {
            GamePlayState::Playing => "Playing"@,
            GamePlayState::Won => "Won"@,
        }
    }

    /// The state's display text, for the host.
    pub fn name(&self) -> (s: String)
        ensures
            s@ == self.spec_name(),
    {
        match *self {
            GamePlayState::Playing => String::from_str("Playing"),
            GamePlayState::Won => String::from_str("Won"),
        }
    }
}

/// The play state together with the number of successful moves so far.
#[derive(Clone, Copy, Debug, PartialEq, Eq, Structural)]
pub struct GamePlay {
    pub state: GamePlayState,
    pub move_count: u32,
}

impl Default for GamePlay {
    fn default() -> (g: Self)
        ensures
            g.state == GamePlayState::Playing,
            g.move_count == 0,
    {
        GamePlay { state: GamePlayState::Playing, move_count: 0 }
    }
}

/// Accumulated elapsed time, in milliseconds, advanced once per tick.
#[derive(Clone, Copy, Debug, PartialEq, Eq, Structural)]
pub struct Time {
    pub delta_ms: u64,
}

impl Default for Time {
    fn default() -> (t: Self)
        ensures
            t.delta_ms == 0,
    {
        Time { delta_ms: 0 }
    }
}

} // verus!
