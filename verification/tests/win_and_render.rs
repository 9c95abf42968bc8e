use sokoban_core::game::tick;
use sokoban_core::game_play_state_system::GamePlayStateSystem;
use sokoban_core::input_system::InputSystem;
use sokoban_core::map::load_map;
use sokoban_core::rendering::rendering_order;
use sokoban_core::resources::{GamePlayState, KeyCode};
use sokoban_core::world::World;

fn load(text: &str) -> World {
    let mut world = World::new();
    load_map(&mut world, text.to_string()).expect("level should load");
    world
}

fn eval(world: &mut World) {
    let mut gss = GamePlayStateSystem {};
    gss.run(world);
}

fn press_and_tick(world: &mut World, key: KeyCode) {
    world.input_queue.keys_pressed.push(key);
    tick(world, 16);
}

fn player_x(world: &World) -> u8 {
    world.entities.iter().find(|e| e.player.is_some()).unwrap().position.unwrap().x
}

fn box_x(world: &World) -> u8 {
    world.entities.iter().find(|e| e.box_piece.is_some()).unwrap().position.unwrap().x
}

#[test]
fn unmatched_spot_keeps_playing() {
    let mut world = load("W BB . BS W");
    eval(&mut world);
    assert!(matches!(world.gameplay.state, GamePlayState::Playing));
}

#[test]
fn matched_spot_of_same_color_wins() {
    let mut world = load("W . BB W\nW . BS W");
    // Move the box onto the spot by hand: the evaluator reads positions only.
    for e in world.entities.iter_mut() {
        if e.box_piece.is_some() {
            let mut p = e.position.unwrap();
            p.y = 1;
            e.position = Some(p);
        }
    }
    eval(&mut world);
    assert!(matches!(world.gameplay.state, GamePlayState::Won));
}

#[test]
fn wrong_color_on_spot_keeps_playing() {
    let mut world = load("W P RB BS W");
    press_and_tick(&mut world, KeyCode::Right);
    // The red box stands on the blue spot: not a match.
    assert_eq!(box_x(&world), 3);
    assert!(matches!(world.gameplay.state, GamePlayState::Playing));
}

#[test]
fn every_spot_must_be_matched() {
    let mut world = load("W P BB BS RS W");
    press_and_tick(&mut world, KeyCode::Right);
    // The blue spot is matched, the red one is not.
    assert!(matches!(world.gameplay.state, GamePlayState::Playing));
}

#[test]
fn no_spots_means_won() {
    // With no box spot every spot is trivially matched, so the evaluator
    // reports a win.
    let mut world = load("W P . W");
    eval(&mut world);
    assert!(matches!(world.gameplay.state, GamePlayState::Won));
}

#[test]
fn moving_matched_box_away_flips_back_to_playing() {
    let mut world = load("W P BB BS . W");
    press_and_tick(&mut world, KeyCode::Right);
    assert!(matches!(world.gameplay.state, GamePlayState::Won));
    // Push the matching box off its spot: the next evaluation flips back.
    press_and_tick(&mut world, KeyCode::Right);
    assert!(matches!(world.gameplay.state, GamePlayState::Playing));
    assert_eq!(world.gameplay.move_count, 2);
}

#[test]
fn evaluation_is_idempotent() {
    let mut world = load("W P BB BS W");
    eval(&mut world);
    let state1 = world.gameplay.state;
    let count1 = world.gameplay.move_count;
    eval(&mut world);
    assert_eq!(world.gameplay.state, state1);
    assert_eq!(world.gameplay.move_count, count1);
    eval(&mut world);
    assert_eq!(world.gameplay.state, state1);
    assert_eq!(world.gameplay.move_count, count1);
}

#[test]
fn walkthrough_pushes_box_onto_spot_in_two_moves() {
    // One row: wall, player, box, a free cell, the matching spot, wall.
    // The first input steps the player and box right; the second lands the
    // box on the spot and wins with exactly two counted moves. A third input
    // after winning is still consumed and resolved (the resolver ignores the
    // play state); here the wall blocks it, so nothing changes.
    let mut world = load("W P BB . BS W");
    press_and_tick(&mut world, KeyCode::Right);
    assert_eq!((player_x(&world), box_x(&world)), (2, 3));
    assert_eq!(world.gameplay.move_count, 1);
    assert!(matches!(world.gameplay.state, GamePlayState::Playing));
    press_and_tick(&mut world, KeyCode::Right);
    assert_eq!((player_x(&world), box_x(&world)), (3, 4));
    assert_eq!(world.gameplay.move_count, 2);
    assert!(matches!(world.gameplay.state, GamePlayState::Won));
    press_and_tick(&mut world, KeyCode::Right);
    assert_eq!((player_x(&world), box_x(&world)), (3, 4));
    assert_eq!(world.gameplay.move_count, 2);
    assert!(matches!(world.gameplay.state, GamePlayState::Won));
    assert_eq!(world.input_queue.keys_pressed.len(), 0);
}

#[test]
fn rendering_order_is_ascending_by_layer() {
    let world = load("W P RS");
    let items = rendering_order(&world, 0);
    // Three floors, one wall, one player, one spot.
    assert_eq!(items.len(), 6);
    for w in items.windows(2) {
        assert!(w[0].position.z <= w[1].position.z);
    }
    // Floors come first, features last.
    assert_eq!(items[0].path, "/images/floor.png");
    assert_eq!(items[1].path, "/images/floor.png");
    assert_eq!(items[2].path, "/images/floor.png");
    assert_eq!(items[3].path, "/images/box_spot_red.png");
}

#[test]
fn rendering_animates_boxes_by_elapsed_time() {
    let world = load("BB");
    let early = rendering_order(&world, 0);
    let late = rendering_order(&world, 300);
    let box_early = early.iter().find(|i| i.path.contains("box_blue")).unwrap();
    let box_late = late.iter().find(|i| i.path.contains("box_blue")).unwrap();
    assert_eq!(box_early.path, "/images/box_blue_1.png");
    assert_eq!(box_late.path, "/images/box_blue_2.png");
    // The cycle wraps after 1000 ms.
    let wrapped = rendering_order(&world, 1100);
    let box_wrapped = wrapped.iter().find(|i| i.path.contains("box_blue")).unwrap();
    assert_eq!(box_wrapped.path, "/images/box_blue_1.png");
}

#[test]
fn rendering_skips_entities_without_position_or_renderable() {
    let mut world = load("P");
    // Strip the position from the floor entity: it is no longer drawable.
    for e in world.entities.iter_mut() {
        if e.player.is_none() {
            e.position = None;
        }
    }
    let items = rendering_order(&world, 0);
    assert_eq!(items.len(), 1);
    assert_eq!(items[0].path, "/images/player.png");
}
