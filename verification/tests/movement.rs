use sokoban_core::game::tick;
use sokoban_core::input_system::InputSystem;
use sokoban_core::map::load_map;
use sokoban_core::resources::{GamePlayState, KeyCode};
use sokoban_core::world::World;

fn load(text: &str) -> World {
    let mut world = World::new();
    load_map(&mut world, text.to_string()).expect("level should load");
    world
}

fn player_pos(world: &World) -> (u8, u8) {
    let e = world.entities.iter().find(|e| e.player.is_some()).unwrap();
    let p = e.position.unwrap();
    (p.x, p.y)
}

fn box_positions(world: &World) -> Vec<(u8, u8)> {
    let mut v: Vec<(u8, u8)> = world
        .entities
        .iter()
        .filter(|e| e.box_piece.is_some())
        .map(|e| {
            let p = e.position.unwrap();
            (p.x, p.y)
        })
        .collect();
    v.sort();
    v
}

fn press(world: &mut World, key: KeyCode) {
    world.input_queue.keys_pressed.push(key);
    let mut is = InputSystem {};
    is.run(world);
}

#[test]
fn player_walks_into_empty_cell() {
    let mut world = load("W P . W");
    press(&mut world, KeyCode::Right);
    assert_eq!(player_pos(&world), (2, 0));
    assert_eq!(world.gameplay.move_count, 1);
}

#[test]
fn push_single_box_moves_player_and_box_one_step() {
    let mut world = load("W P BB . W");
    press(&mut world, KeyCode::Right);
    assert_eq!(player_pos(&world), (2, 0));
    assert_eq!(box_positions(&world), vec![(3, 0)]);
    assert_eq!(world.gameplay.move_count, 1);
}

#[test]
fn push_chain_of_boxes_counts_one_move() {
    let mut world = load("W P BB RB . W");
    press(&mut world, KeyCode::Right);
    assert_eq!(player_pos(&world), (2, 0));
    assert_eq!(box_positions(&world), vec![(3, 0), (4, 0)]);
    assert_eq!(world.gameplay.move_count, 1);
}

#[test]
fn push_chain_of_three_boxes_counts_one_move() {
    let mut world = load("W P BB RB BB . W");
    press(&mut world, KeyCode::Right);
    assert_eq!(player_pos(&world), (2, 0));
    assert_eq!(box_positions(&world), vec![(3, 0), (4, 0), (5, 0)]);
    assert_eq!(world.gameplay.move_count, 1);
}

#[test]
fn push_into_wall_moves_nothing() {
    let mut world = load("W P W");
    press(&mut world, KeyCode::Right);
    assert_eq!(player_pos(&world), (1, 0));
    assert_eq!(world.gameplay.move_count, 0);
}

#[test]
fn push_chain_ending_at_wall_moves_nothing() {
    let mut world = load("W P BB RB W");
    press(&mut world, KeyCode::Right);
    assert_eq!(player_pos(&world), (1, 0));
    assert_eq!(box_positions(&world), vec![(2, 0), (3, 0)]);
    assert_eq!(world.gameplay.move_count, 0);
}

#[test]
fn grid_edge_blocks_like_a_wall() {
    // The resolver clamps at the boundary: walking off the grid is refused,
    // so unsigned coordinates never wrap.
    let mut world = load("P .");
    press(&mut world, KeyCode::Left);
    assert_eq!(player_pos(&world), (0, 0));
    assert_eq!(world.gameplay.move_count, 0);
    press(&mut world, KeyCode::Up);
    assert_eq!(player_pos(&world), (0, 0));
    assert_eq!(world.gameplay.move_count, 0);
}

#[test]
fn pushing_box_to_grid_edge_is_blocked() {
    let mut world = load("P BB");
    press(&mut world, KeyCode::Right);
    assert_eq!(player_pos(&world), (0, 0));
    assert_eq!(box_positions(&world), vec![(1, 0)]);
    assert_eq!(world.gameplay.move_count, 0);
}

#[test]
fn vertical_pushes_work_both_ways() {
    let mut world = load(".\nP\nBB\n.");
    press(&mut world, KeyCode::Down);
    assert_eq!(player_pos(&world), (0, 2));
    assert_eq!(box_positions(&world), vec![(0, 3)]);
    press(&mut world, KeyCode::Up);
    assert_eq!(player_pos(&world), (0, 1));
    assert_eq!(world.gameplay.move_count, 2);
}

#[test]
fn non_direction_key_is_consumed_without_effect() {
    let mut world = load("W P . W");
    press(&mut world, KeyCode::Other);
    assert_eq!(player_pos(&world), (1, 0));
    assert_eq!(world.gameplay.move_count, 0);
    assert_eq!(world.input_queue.keys_pressed.len(), 0);
}

#[test]
fn empty_queue_means_no_movement() {
    let mut world = load("W P . W");
    let mut is = InputSystem {};
    is.run(&mut world);
    assert_eq!(player_pos(&world), (1, 0));
    assert_eq!(world.gameplay.move_count, 0);
}

#[test]
fn most_recent_key_is_processed_first() {
    // The queue behaves as a stack: the last key pressed wins the tick.
    let mut world = load("W P . W");
    world.input_queue.keys_pressed.push(KeyCode::Right);
    world.input_queue.keys_pressed.push(KeyCode::Up);
    let mut is = InputSystem {};
    is.run(&mut world);
    // Up is blocked at the grid edge; Right is still queued.
    assert_eq!(player_pos(&world), (1, 0));
    assert_eq!(world.input_queue.keys_pressed, vec![KeyCode::Right]);
    is.run(&mut world);
    assert_eq!(player_pos(&world), (2, 0));
    assert_eq!(world.gameplay.move_count, 1);
}

#[test]
fn zero_players_is_a_no_op_forever() {
    let mut world = load("W . BB W");
    world.input_queue.keys_pressed.push(KeyCode::Right);
    let mut is = InputSystem {};
    is.run(&mut world);
    assert_eq!(box_positions(&world), vec![(2, 0)]);
    assert_eq!(world.gameplay.move_count, 0);
    // No player pops anything: the key stays queued.
    assert_eq!(world.input_queue.keys_pressed.len(), 1);
}

#[test]
fn tick_advances_clock_and_runs_both_systems() {
    let mut world = load("W P BB BS W");
    world.input_queue.keys_pressed.push(KeyCode::Right);
    tick(&mut world, 16);
    assert_eq!(world.time.delta_ms, 16);
    assert_eq!(world.gameplay.move_count, 1);
    assert!(matches!(world.gameplay.state, GamePlayState::Won));
    tick(&mut world, 16);
    assert_eq!(world.time.delta_ms, 32);
}
