//! Creation of the fixed entity shapes a level is built from: floors, walls,
//! the player, boxes and box spots.

use vstd::prelude::*;
use vstd::string::StringExecFns;

use crate::components::{Box, BoxColor, BoxSpot, Immovable, Movable, Player, Position, Renderable,
    Wall};
use crate::world::{Entity, EntityView, World};

verus! {

/// Draw layer of floor tiles: below every feature.
pub const FLOOR_Z: u8 = 5;

/// Draw layer of box spots: above floors, below pieces.
pub const SPOT_Z: u8 = 9;

/// Draw layer of walls, boxes and the player.
pub const FEATURE_Z: u8 = 10;

/// The view of a floor entity at `(x, y)`: a static renderable, no tags.
pub open spec fn floor_view(x: u8, y: u8) -> EntityView {
    EntityView {
        position: Some(Position { x, y, z: FLOOR_Z }),
        paths: Some(seq!["/images/floor.png"@]),
        wall: false,
        player: false,
        box_color: None,
        spot_color: None,
        movable: false,
        immovable: false,
    }
}

/// The view of a wall entity at `(x, y)`: immovable.
pub open spec fn wall_view(x: u8, y: u8) -> EntityView {
    EntityView {
        position: Some(Position { x, y, z: FEATURE_Z }),
        paths: Some(seq!["/images/wall.png"@]),
        wall: true,
        player: false,
        box_color: None,
        spot_color: None,
        movable: false,
        immovable: true,
    }
}

/// The view of the player entity at `(x, y)`: movable.
pub open spec fn player_view(x: u8, y: u8) -> EntityView {
    EntityView {
        position: Some(Position { x, y, z: FEATURE_Z }),
        paths: Some(seq!["/images/player.png"@]),
        wall: false,
        player: true,
        box_color: None,
        spot_color: None,
        movable: true,
        immovable: false,
    }
}

/// The two animation frames of a box of color `c`.
pub open spec fn box_paths(c: BoxColor) -> Seq<Seq<char>> {
    match c {
        BoxColor::Red => seq!["/images/box_red_1.png"@, "/images/box_red_2.png"@],
        BoxColor::Blue => seq!["/images/box_blue_1.png"@, "/images/box_blue_2.png"@],
    }
}

/// The view of a box entity of color `c` at `(x, y)`: movable, animated.
pub open spec fn box_view(x: u8, y: u8, c: BoxColor) -> EntityView {
    EntityView {
        position: Some(Position { x, y, z: FEATURE_Z }),
        paths: Some(box_paths(c)),
        wall: false,
        player: false,
        box_color: Some(c),
        spot_color: None,
        movable: true,
        immovable: false,
    }
}

/// The asset reference of a box spot of color `c`.
pub open spec fn spot_path(c: BoxColor) -> Seq<char> {
    match c {
        BoxColor::Red => "/images/box_spot_red.png"@,
        BoxColor::Blue => "/images/box_spot_blue.png"@,
    }
}

/// The view of a box-spot entity of color `c` at `(x, y)`: no tags.
pub open spec fn spot_view(x: u8, y: u8, c: BoxColor) -> EntityView {
    EntityView {
        position: Some(Position { x, y, z: SPOT_Z }),
        paths: Some(seq![spot_path(c)]),
        wall: false,
        player: false,
        box_color: None,
        spot_color: Some(c),
        movable: false,
        immovable: false,
    }
}

/// Creates a floor entity at the cell of `position`, on the floor layer.
pub fn create_floor(world: &mut World, position: &Position)
    ensures
        final(world).ents() == old(world).ents().push(floor_view(position.x, position.y)),
        final(world).input_queue == old(world).input_queue,
        final(world).gameplay == old(world).gameplay,
        final(world).time == old(world).time,
        final(world).width == old(world).width,
        final(world).height == old(world).height,
{
    let e = Entity {
        position: Some(Position { x: position.x, y: position.y, z: FLOOR_Z }),
        renderable: Some(Renderable::new_static(String::from_str("/images/floor.png"))),
        wall: None,
        player: None,
        box_piece: None,
        box_spot: None,
        movable: None,
        immovable: None,
    };
    proof {
        assert(e@ =~~= floor_view(position.x, position.y));
    }
    world.create(e);
}

/// Creates a wall entity at the cell of `position`, on the feature layer.
pub fn create_wall(world: &mut World, position: &Position)
    ensures
        final(world).ents() == old(world).ents().push(wall_view(position.x, position.y)),
        final(world).input_queue == old(world).input_queue,
        final(world).gameplay == old(world).gameplay,
        final(world).time == old(world).time,
        final(world).width == old(world).width,
        final(world).height == old(world).height,
{
    let e = Entity {
        position: Some(Position { x: position.x, y: position.y, z: FEATURE_Z }),
        renderable: Some(Renderable::new_static(String::from_str("/images/wall.png"))),
        wall: Some(Wall {}),
        player: None,
        box_piece: None,
        box_spot: None,
        movable: None,
        immovable: Some(Immovable),
    };
    proof {
        assert(e@ =~~= wall_view(position.x, position.y));
    }
    world.create(e);
}

/// Creates the player entity at the cell of `position`, on the feature layer.
pub fn create_player(world: &mut World, position: &Position)
    ensures
        final(world).ents() == old(world).ents().push(player_view(position.x, position.y)),
        final(world).input_queue == old(world).input_queue,
        final(world).gameplay == old(world).gameplay,
        final(world).time == old(world).time,
        final(world).width == old(world).width,
        final(world).height == old(world).height,
{
    let e = Entity {
        position: Some(Position { x: position.x, y: position.y, z: FEATURE_Z }),
        renderable: Some(Renderable::new_static(String::from_str("/images/player.png"))),
        wall: None,
        player: Some(Player {}),
        box_piece: None,
        box_spot: None,
        movable: Some(Movable),
        immovable: None,
    };
    proof {
        assert(e@ =~~= player_view(position.x, position.y));
    }
    world.create(e);
}

/// Creates a box entity of color `color` at the cell of `position`.
pub fn create_box(world: &mut World, position: &Position, color: BoxColor)
    ensures
        final(world).ents() == old(world).ents().push(box_view(position.x, position.y, color)),
        final(world).input_queue == old(world).input_queue,
        final(world).gameplay == old(world).gameplay,
        final(world).time == old(world).time,
        final(world).width == old(world).width,
        final(world).height == old(world).height,
{
    let mut paths: Vec<String> = Vec::new();
    match color {
        BoxColor::Red => {
            paths.push(String::from_str("/images/box_red_1.png"));
            paths.push(String::from_str("/images/box_red_2.png"));
        },
        BoxColor::Blue => {
            paths.push(String::from_str("/images/box_blue_1.png"));
            paths.push(String::from_str("/images/box_blue_2.png"));
        },
    }
    proof {
        assert(paths.deep_view() =~= box_paths(color));
    }
    let e = Entity {
        position: Some(Position { x: position.x, y: position.y, z: FEATURE_Z }),
        renderable: Some(Renderable::new_animated(paths)),
        wall: None,
        player: None,
        box_piece: Some(Box { color }),
        box_spot: None,
        movable: Some(Movable),
        immovable: None,
    };
    proof {
        assert(e@ =~~= box_view(position.x, position.y, color));
    }
    world.create(e);
}

/// Creates a box-spot entity of color `color` at the cell of `position`.
pub fn create_box_spot(world: &mut World, position: &Position, color: BoxColor)
    ensures
        final(world).ents() == old(world).ents().push(spot_view(position.x, position.y, color)),
        final(world).input_queue == old(world).input_queue,
        final(world).gameplay == old(world).gameplay,
        final(world).time == old(world).time,
        final(world).width == old(world).width,
        final(world).height == old(world).height,
{
    let path = match color {
        BoxColor::Red => String::from_str("/images/box_spot_red.png"),
        BoxColor::Blue => String::from_str("/images/box_spot_blue.png"),
    };
    let e = Entity {
        position: Some(Position { x: position.x, y: position.y, z: SPOT_Z }),
        renderable: Some(Renderable::new_static(path)),
        wall: None,
        player: None,
        box_piece: None,
        box_spot: Some(BoxSpot { color }),
        movable: None,
        immovable: None,
    };
    proof {
        assert(e@ =~~= spot_view(position.x, position.y, color));
    }
    world.create(e);
}

} // verus!
