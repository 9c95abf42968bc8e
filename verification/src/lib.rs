//! Simulation core of a grid-based box-pushing puzzle.
//!
//! The library owns the authoritative game state: entities with their
//! components (positions, render data, tags), the shared resources (input
//! queue, play state, clock), the level loader, the movement resolver that
//! pushes chains of movable pieces, and the win-condition evaluator.
//! Everything a host needs for drawing is exposed as plain data; the host
//! itself (window, images, key events) stays outside the library.

pub mod components;
pub mod entities;
pub mod game;
pub mod game_play_state_system;
pub mod input_system;
pub mod map;
pub mod rendering;
pub mod resources;
pub mod world;
