//! The entity/component store: a single arena of entities, each holding its
//! optional components, together with the shared resources.

use vstd::prelude::*;

use crate::components::{Box, BoxColor, BoxSpot, Immovable, Movable, Player, Position, Renderable,
    Wall};
use crate::resources::{GamePlay, GamePlayState, InputQueue, KeyCode, Time};

verus! {

/// One entity: a stable index into the store's arena owns this record of
/// optional components.
pub struct Entity {
    pub position: Option<Position>,
    pub renderable: Option<Renderable>,
    pub wall: Option<Wall>,
    pub player: Option<Player>,
    pub box_piece: Option<Box>,
    pub box_spot: Option<BoxSpot>,
    pub movable: Option<Movable>,
    pub immovable: Option<Immovable>,
}

/// The mathematical image of an entity: the same components with render data
/// abstracted to sequences of asset references and tags to booleans.
#[verifier::ext_equal]
pub struct EntityView {
    pub position: Option<Position>,
    pub paths: Option<Seq<Seq<char>>>,
    pub wall: bool,
    pub player: bool,
    pub box_color: Option<BoxColor>,
    pub spot_color: Option<BoxColor>,
    pub movable: bool,
    pub immovable: bool,
}

impl View for Entity {
    type V = EntityView;

    open spec fn view(&self) -> EntityView {
        EntityView {
            position: self.position,
            paths: match self.renderable {
                Some(r) => Some(r@),
                None => None,
            },
            wall: self.wall is Some,
            player: self.player is Some,
            box_color: match self.box_piece {
                Some(b) => Some(b.color),
                None => None,
            },
            spot_color: match self.box_spot {
                Some(s) => Some(s.color),
                None => None,
            },
            movable: self.movable is Some,
            immovable: self.immovable is Some,
        }
    }
}

impl DeepView for Entity {
    type V = EntityView;

    open spec fn deep_view(&self) -> EntityView {
        self.view()
    }
}

/// Whether the entity stands on grid cell `(x, y)` (any layer).
pub open spec fn at_cell(e: EntityView, x: int, y: int) -> bool {
    match e.position {
        Some(p) => p.x == x && p.y == y,
        None => false,
    }
}

/// Some movable entity occupies cell `(x, y)`.
pub open spec fn movable_at(es: Seq<EntityView>, x: int, y: int) -> bool {
    exists|i: int| 0 <= i < es.len() && (#[trigger] es[i]).movable && at_cell(es[i], x, y)
}

/// Some immovable entity occupies cell `(x, y)`.
pub open spec fn immovable_at(es: Seq<EntityView>, x: int, y: int) -> bool {
    exists|i: int| 0 <= i < es.len() && (#[trigger] es[i]).immovable && at_cell(es[i], x, y)
}

/// A box of color `c` occupies cell `(x, y)`.
pub open spec fn box_of_color_at(es: Seq<EntityView>, x: int, y: int, c: BoxColor) -> bool {
    exists|i: int|
        0 <= i < es.len() && (#[trigger] es[i]).box_color == Some(c) && at_cell(es[i], x, y)
}

/// Both entities stand on the same grid cell.
pub open spec fn same_xy(a: EntityView, b: EntityView) -> bool {
    match (a.position, b.position) {
        (Some(p), Some(q)) => p.x == q.x && p.y == q.y,
        _ => false,
    }
}

/// Per-entity well-formedness: positions lie on the grid, walls are
/// immovable, the player and boxes are movable, render data is non-empty.
pub open spec fn wf_entity(e: EntityView, width: int, height: int) -> bool {
    &&& match e.position {
        Some(p) => p.x < width && p.y < height,
        None => true,
    }
    &&& e.wall ==> e.immovable
    &&& e.player ==> e.movable
    &&& e.box_color is Some ==> e.movable
    &&& !(e.movable && e.immovable)
    &&& match e.paths {
        Some(ps) => ps.len() >= 1,
        None => true,
    }
}

/// Store-wide well-formedness: every entity is well formed, and any grid cell
/// holds at most one movable and at most one immovable entity.
pub open spec fn wf_entities(es: Seq<EntityView>, width: int, height: int) -> bool {
    &&& forall|i: int| 0 <= i < es.len() ==> wf_entity(#[trigger] es[i], width, height)
    &&& forall|i: int, j: int|
        0 <= i < es.len() && 0 <= j < es.len() && (#[trigger] es[i]).movable
            && (#[trigger] es[j]).movable && same_xy(es[i], es[j]) ==> i == j
    &&& forall|i: int, j: int|
        0 <= i < es.len() && 0 <= j < es.len() && (#[trigger] es[i]).immovable
            && (#[trigger] es[j]).immovable && same_xy(es[i], es[j]) ==> i == j
}

/// The store: the entity arena plus the shared resources (input queue, play
/// state, clock) and the grid bounds the movement resolver scans to.
pub struct World {
    pub entities: Vec<Entity>,
    pub input_queue: InputQueue,
    pub gameplay: GamePlay,
    pub time: Time,
    pub width: u16,
    pub height: u16,
}

impl World {
    /// The arena as a sequence of entity views.
    pub open spec fn ents(&self) -> Seq<EntityView> {
        self.entities.deep_view()
    }

    /// Well-formedness of the whole store. Grid bounds are capped at 256 so
    /// that every on-grid coordinate fits the `u8` of `Position`.
    pub open spec fn wf(&self) -> bool {
        &&& wf_entities(self.ents(), self.width as int, self.height as int)
        &&& self.width <= 256
        &&& self.height <= 256
    }

    /// An empty store with default resources and an empty grid.
    pub fn new() -> (w: World)
        ensures
            w.ents() == Seq::<EntityView>::empty(),
            w.input_queue.keys_pressed@ == Seq::<KeyCode>::empty(),
            w.gameplay.state == GamePlayState::Playing,
            w.gameplay.move_count == 0,
            w.time.delta_ms == 0,
            w.width == 0,
            w.height == 0,
            w.wf(),
    {
        let w = World {
            entities: Vec::new(),
            input_queue: InputQueue::default(),
            gameplay: GamePlay::default(),
            time: Time::default(),
            width: 0,
            height: 0,
        };
        proof {
            assert(w.ents() =~= Seq::<EntityView>::empty());
        }
        w
    }

    /// Adds one entity to the arena and returns its stable index.
    pub fn create(&mut self, e: Entity) -> (id: usize)
        ensures
            final(self).entities@ == old(self).entities@.push(e),
            final(self).ents() == old(self).ents().push(e@),
            id == old(self).entities@.len(),
            final(self).input_queue == old(self).input_queue,
            final(self).gameplay == old(self).gameplay,
            final(self).time == old(self).time,
            final(self).width == old(self).width,
            final(self).height == old(self).height,
    {
        let id = self.entities.len();
        self.entities.push(e);
        proof {
            assert(self.ents() =~= old(self).ents().push(e@));
        }
        id
    }
}

/// Finds the movable entity standing on `(x, y)`, if any. Under
/// `wf_entities` there is at most one.
pub fn find_movable_at(entities: &Vec<Entity>, x: u8, y: u8) -> (r: Option<usize>)
    ensures
        match r {
            Some(i) => i < entities@.len() && entities.deep_view()[i as int].movable && at_cell(
                entities.deep_view()[i as int],
                x as int,
                y as int,
            ),
            None => !movable_at(entities.deep_view(), x as int, y as int),
        },
{
    let ghost es = entities.deep_view();
    let n = entities.len();
    for i in 0..n
        invariant
            n == entities@.len(),
            es == entities.deep_view(),
            forall|j: int| 0 <= j < i ==> !((#[trigger] es[j]).movable && at_cell(es[j], x as int, y as int)),
    {
        let e = &entities[i];
        if e.movable.is_some() {
            match e.position {
                Some(p) => {
                    if p.x == x && p.y == y {
                        return Some(i);
                    }
                },
                None => {},
            }
        }
    }
    None
}

/// Finds the immovable entity standing on `(x, y)`, if any. Under
/// `wf_entities` there is at most one.
pub fn find_immovable_at(entities: &Vec<Entity>, x: u8, y: u8) -> (r: Option<usize>)
    ensures
        match r {
            Some(i) => i < entities@.len() && entities.deep_view()[i as int].immovable && at_cell(
                entities.deep_view()[i as int],
                x as int,
                y as int,
            ),
            None => !immovable_at(entities.deep_view(), x as int, y as int),
        },
{
    let ghost es = entities.deep_view();
    let n = entities.len();
    for i in 0..n
        invariant
            n == entities@.len(),
            es == entities.deep_view(),
            forall|j: int| 0 <= j < i ==> !((#[trigger] es[j]).immovable && at_cell(es[j], x as int, y as int)),
    {
        let e = &entities[i];
        if e.immovable.is_some() {
            match e.position {
                Some(p) => {
                    if p.x == x && p.y == y {
                        return Some(i);
                    }
                },
                None => {},
            }
        }
    }
    None
}

} // verus!
