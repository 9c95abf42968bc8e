//! One simulation tick: movement resolution, then win-condition evaluation,
//! then the clock advance, in that fixed order.

use vstd::prelude::*;

use crate::game_play_state_system::{eval_state, GamePlayStateSystem};
use crate::input_system::{run_players, InputSystem};
use crate::world::World;

verus! {

/// Advances the simulation by one tick: the movement resolver consumes
/// pending input and applies the moves, the evaluator recomputes the play
/// state from the new positions, and the clock gains `delta_ms`.
pub fn tick(world: &mut World, delta_ms: u64)
    requires
        old(world).wf(),
        old(world).gameplay.move_count < u32::MAX,
        old(world).time.delta_ms + delta_ms <= u64::MAX,
    ensures
        final(world).wf(),
        ({
            let r = run_players(
                old(world).ents(),
                old(world).input_queue.keys_pressed@,
                0,
                old(world).width as int,
                old(world).height as int,
            );
            &&& final(world).ents() == r.0
            &&& final(world).input_queue.keys_pressed@ == r.1
            &&& final(world).gameplay.move_count == old(world).gameplay.move_count + (
            if r.2 {
                1int
            } else {
                0int
            })
            &&& final(world).gameplay.state == eval_state(r.0)
        }),
        final(world).time.delta_ms == old(world).time.delta_ms + delta_ms,
        final(world).width == old(world).width,
        final(world).height == old(world).height,
{
    let mut is = InputSystem {};
    is.run(world);
    let mut gss = GamePlayStateSystem {};
    gss.run(world);
    world.time.delta_ms = world.time.delta_ms + delta_ms;
}

} // verus!
