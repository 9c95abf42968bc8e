use sokoban_core::components::{BoxColor, Renderable, RenderableKind};
use sokoban_core::map::{initialize_level, load_map, LoadError};
use sokoban_core::resources::GamePlayState;
use sokoban_core::world::{Entity, World};

fn load(text: &str) -> World {
    let mut world = World::new();
    load_map(&mut world, text.to_string()).expect("level should load");
    world
}

fn count<F: Fn(&Entity) -> bool>(world: &World, pred: F) -> usize {
    world.entities.iter().filter(|e| pred(e)).count()
}

#[test]
fn load_creates_floor_per_non_void_cell() {
    // One token of each kind: every non-N cell gets exactly one floor entity.
    let world = load("W . P\nBB RS N");
    assert_eq!(count(&world, |e| e.wall.is_none() && e.player.is_none()
        && e.box_piece.is_none() && e.box_spot.is_none() && e.renderable.is_some()), 5);
    assert_eq!(count(&world, |e| e.wall.is_some()), 1);
    assert_eq!(count(&world, |e| e.player.is_some()), 1);
    assert_eq!(count(&world, |e| e.box_piece.is_some()), 1);
    assert_eq!(count(&world, |e| e.box_spot.is_some()), 1);
    assert_eq!(world.entities.len(), 9);
}

#[test]
fn load_places_features_at_their_cells() {
    let world = load("W . P\nBB RS N");
    let wall = world.entities.iter().find(|e| e.wall.is_some()).unwrap();
    let p = wall.position.unwrap();
    assert_eq!((p.x, p.y), (0, 0));
    let player = world.entities.iter().find(|e| e.player.is_some()).unwrap();
    let p = player.position.unwrap();
    assert_eq!((p.x, p.y), (2, 0));
    let bx = world.entities.iter().find(|e| e.box_piece.is_some()).unwrap();
    assert_eq!(bx.box_piece.unwrap().color, BoxColor::Blue);
    let p = bx.position.unwrap();
    assert_eq!((p.x, p.y), (0, 1));
    let spot = world.entities.iter().find(|e| e.box_spot.is_some()).unwrap();
    assert_eq!(spot.box_spot.unwrap().color, BoxColor::Red);
    let p = spot.position.unwrap();
    assert_eq!((p.x, p.y), (1, 1));
}

#[test]
fn load_layers_floor_below_spot_below_feature() {
    let world = load("W RS .");
    let wall = world.entities.iter().find(|e| e.wall.is_some()).unwrap();
    let spot = world.entities.iter().find(|e| e.box_spot.is_some()).unwrap();
    let floor = world.entities.iter().find(|e| e.wall.is_none()
        && e.box_spot.is_none()).unwrap();
    assert!(floor.position.unwrap().z < spot.position.unwrap().z);
    assert!(spot.position.unwrap().z < wall.position.unwrap().z);
}

#[test]
fn load_void_cell_has_no_entity() {
    let world = load("N N\nN P");
    assert_eq!(world.entities.len(), 2);
    let player = world.entities.iter().find(|e| e.player.is_some()).unwrap();
    let p = player.position.unwrap();
    assert_eq!((p.x, p.y), (1, 1));
}

#[test]
fn load_unrecognized_token_aborts_with_nothing_built() {
    let mut world = World::new();
    let r = load_map(&mut world, "W . X".to_string());
    assert_eq!(r, Err(LoadError::UnrecognizedToken));
    assert_eq!(world.entities.len(), 0);
    assert_eq!(world.width, 0);
    assert_eq!(world.height, 0);
}

#[test]
fn load_trims_outer_blank_lines_and_sets_dimensions() {
    let world = load("\n\n   W . .\n  W W\n\n   ");
    assert_eq!(world.height, 2);
    assert_eq!(world.width, 3);
    // The first real row is row 0.
    let floors_at_row0 = world.entities.iter().filter(|e| {
        let p = e.position.unwrap();
        p.y == 0
    }).count();
    assert!(floors_at_row0 >= 3);
}

#[test]
fn load_keeps_inner_blank_line_as_empty_row() {
    let world = load("P\n\nW");
    assert_eq!(world.height, 3);
    let wall = world.entities.iter().find(|e| e.wall.is_some()).unwrap();
    assert_eq!(wall.position.unwrap().y, 2);
}

#[test]
fn initialize_level_builds_the_builtin_level() {
    let mut world = World::new();
    initialize_level(&mut world).expect("builtin level should load");
    assert_eq!(world.width, 8);
    assert_eq!(world.height, 9);
    assert_eq!(world.entities.iter().filter(|e| e.player.is_some()).count(), 1);
    assert_eq!(world.entities.iter().filter(|e| e.box_piece.is_some()).count(), 2);
    assert_eq!(world.entities.iter().filter(|e| e.box_spot.is_some()).count(), 2);
    assert!(matches!(world.gameplay.state, GamePlayState::Playing));
    assert_eq!(world.gameplay.move_count, 0);
}

#[test]
fn renderable_static_kind_and_path() {
    let r = Renderable::new_static("/images/floor.png".to_string());
    assert!(matches!(r.kind(), RenderableKind::Static));
    assert_eq!(r.path(0), "/images/floor.png");
    assert_eq!(r.path(7), "/images/floor.png");
    assert_eq!(r.frame_index(999), 0);
}

#[test]
fn renderable_animated_kind_path_wraps_and_frames_advance() {
    let r = Renderable::new_animated(vec!["a.png".to_string(), "b.png".to_string()]);
    assert!(matches!(r.kind(), RenderableKind::Animated));
    assert_eq!(r.path(0), "a.png");
    assert_eq!(r.path(1), "b.png");
    assert_eq!(r.path(2), "a.png");
    // One frame step every 250 ms within a 1000 ms cycle.
    assert_eq!(r.frame_index(0), 0);
    assert_eq!(r.frame_index(260), 1);
    assert_eq!(r.frame_index(600), 2);
    assert_eq!(r.frame_index(990), 3);
    assert_eq!(r.frame_index(1240), 0);
}

#[test]
fn color_and_state_names() {
    assert_eq!(BoxColor::Red.name(), "red");
    assert_eq!(BoxColor::Blue.name(), "blue");
    assert_eq!(GamePlayState::Playing.name(), "Playing");
    assert_eq!(GamePlayState::Won.name(), "Won");
}

#[test]
fn default_resources_start_empty() {
    let world = World::new();
    assert_eq!(world.entities.len(), 0);
    assert_eq!(world.input_queue.keys_pressed.len(), 0);
    assert!(matches!(world.gameplay.state, GamePlayState::Playing));
    assert_eq!(world.gameplay.move_count, 0);
    assert_eq!(world.time.delta_ms, 0);
}
