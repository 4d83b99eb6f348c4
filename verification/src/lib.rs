//! Procedural dungeon layouts and the compositor that paints them.
//!
//! A level is a row-major grid of tiles. Corridors are carved by a randomized
//! depth-first search, rectangular rooms are laid over them, and the result is
//! rendered tile by tile into a linear pixel buffer together with a player
//! sprite.

pub mod rng;
pub mod tiles;
pub mod maze;
pub mod rooms;
pub mod render;
pub mod game;
