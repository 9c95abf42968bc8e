//! The win-condition evaluator: once per tick, after movement, the play
//! state is recomputed from the current positions alone. The game is won
//! exactly when every box spot has a box of its own color standing on its
//! cell; otherwise it is still being played.

use vstd::prelude::*;

use crate::components::BoxColor;
use crate::resources::{GamePlay, GamePlayState};
use crate::world::{at_cell, box_of_color_at, same_xy, Entity, EntityView, World};

verus! {

/// Whether every box spot's cell holds a box of the spot's color.
pub open spec fn all_spots_matched(es: Seq<EntityView>) -> bool {
    forall|i: int|
        0 <= i < es.len() && (#[trigger] es[i]).spot_color is Some && es[i].position is Some
            ==> box_of_color_at(
            es,
            es[i].position->Some_0.x as int,
            es[i].position->Some_0.y as int,
            es[i].spot_color->Some_0,
        )
}

/// The play state the evaluator derives from the entities.
pub open spec fn eval_state(es: Seq<EntityView>) -> GamePlayState {
    if all_spots_matched(es) {
        GamePlayState::Won
    } else {
        GamePlayState::Playing
    }
}

/// The whole effect of one evaluation: only the play state changes, and it
/// becomes a pure function of the current positions.
pub open spec fn eval_model(w: World) -> World {
    World {
        gameplay: GamePlay { state: eval_state(w.ents()), move_count: w.gameplay.move_count },
        ..w
    }
}

/// Finds a box standing on `(x, y)` and returns its color. Under `wf` there
/// is at most one.
fn find_box_at(entities: &Vec<Entity>, x: u8, y: u8) -> (r: Option<BoxColor>)
    ensures
        match r {
            Some(c) => box_of_color_at(entities.deep_view(), x as int, y as int, c),
            None => forall|c: BoxColor|
                !box_of_color_at(entities.deep_view(), x as int, y as int, c),
        },
{
    let ghost es = entities.deep_view();
    let n = entities.len();
    for i in 0..n
        invariant
            n == entities@.len(),
            es == entities.deep_view(),
            forall|j: int|
                0 <= j < i ==> !((#[trigger] es[j]).box_color is Some && at_cell(
                    es[j],
                    x as int,
                    y as int,
                )),
    {
        let e = &entities[i];
        if let Some(b) = e.box_piece {
            match e.position {
                Some(p) => {
                    if p.x == x && p.y == y {
                        proof {
                            assert(es[i as int].box_color == Some(b.color));
                            assert(at_cell(es[i as int], x as int, y as int));
                        }
                        return Some(b.color);
                    }
                },
                None => {},
            }
        }
    }
    proof {
        assert forall|c: BoxColor| !box_of_color_at(es, x as int, y as int, c) by {
            if box_of_color_at(es, x as int, y as int, c) {
                let j = choose|j: int|
                    0 <= j < es.len() && (#[trigger] es[j]).box_color == Some(c) && at_cell(
                        es[j],
                        x as int,
                        y as int,
                    );
                assert(false);
            }
        }
    }
    None
}

/// The win-condition evaluator system.
pub struct GamePlayStateSystem {}

impl GamePlayStateSystem {
    /// Recomputes the play state from the current positions: `Won` exactly
    /// when every box spot's cell holds a box of the spot's color. Nothing
    /// else changes; in particular the move count is carried unchanged.
    pub fn run(&mut self, world: &mut World)
        requires
            old(world).wf(),
        ensures
            *final(world) == eval_model(*old(world)),
            final(world).wf(),
    {
        let ghost es = world.ents();
        let n = world.entities.len();
        let mut all = true;
        let mut i: usize = 0;
        while i < n
            invariant
                i <= n,
                n == world.entities@.len(),
                es == world.ents(),
                world.wf(),
                all == (forall|j: int|
                    0 <= j < i && (#[trigger] es[j]).spot_color is Some && es[j].position is Some
                        ==> box_of_color_at(
                        es,
                        es[j].position->Some_0.x as int,
                        es[j].position->Some_0.y as int,
                        es[j].spot_color->Some_0,
                    )),
            decreases n - i,
        {
            let spotopt = world.entities[i].box_spot;
            let posopt = world.entities[i].position;
            if let Some(spot) = spotopt {
                if let Some(p) = posopt {
                    let matched = match find_box_at(&world.entities, p.x, p.y) {
                        Some(c) => c == spot.color,
                        None => false,
                    };
                    proof {
                        assert(es[i as int].spot_color == Some(spot.color));
                        assert(es[i as int].position == Some(p));
                        if matched {
                        } else {
                            // Either no box stands there, or the one box
                            // there has another color: the spot is unmatched.
                            if box_of_color_at(es, p.x as int, p.y as int, spot.color) {
                                let j = choose|j: int|
                                    0 <= j < es.len() && (#[trigger] es[j]).box_color == Some(
                                        spot.color,
                                    ) && at_cell(es[j], p.x as int, p.y as int);
                                let c2 = choose|c2: BoxColor|
                                    box_of_color_at(es, p.x as int, p.y as int, c2) && c2
                                        != spot.color;
                                let j2 = choose|j2: int|
                                    0 <= j2 < es.len() && (#[trigger] es[j2]).box_color == Some(
                                        c2,
                                    ) && at_cell(es[j2], p.x as int, p.y as int);
                                assert(es[j].movable && es[j2].movable);
                                assert(same_xy(es[j], es[j2]));
                                assert(j == j2);
                                assert(false);
                            }
                        }
                    }
                    if !matched {
                        all = false;
                    }
                } else {
                    proof {
                        assert(es[i as int].position is None);
                    }
                }
            } else {
                proof {
                    assert(es[i as int].spot_color is None);
                }
            }
            i += 1;
        }
        world.gameplay.state = if all {
            GamePlayState::Won
        } else {
            GamePlayState::Playing
        };
        proof {
            assert(all == all_spots_matched(es));
            assert(*world =~= eval_model(*old(world)));
        }
    }
}

/// Law: a box spot with no box of its own color on its cell forces the
/// evaluator's result back to `Playing`; in particular, moving the matching
/// box of any single spot away flips the state on the next evaluation.
pub proof fn lemma_unmatched_spot_playing(es: Seq<EntityView>, i: int)
    requires
        0 <= i < es.len(),
        es[i].spot_color is Some,
        es[i].position is Some,
        !box_of_color_at(
            es,
            es[i].position->Some_0.x as int,
            es[i].position->Some_0.y as int,
            es[i].spot_color->Some_0,
        ),
    ensures
        eval_state(es) == GamePlayState::Playing,
{
}

/// Law: the evaluator is idempotent. It reads only positions and writes only
/// the play state, so evaluating twice with no movement in between gives the
/// same state and the same move count as evaluating once.
pub proof fn lemma_eval_idempotent(w: World)
    ensures
        eval_model(eval_model(w)) == eval_model(w),
{
    assert(eval_model(w).ents() == w.ents());
}

} // verus!
