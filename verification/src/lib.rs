//! A turn-based dungeon crawler: procedural dungeon generation, the player and
//! enemy models, enemy spawning, and the rules that resolve one turn.

pub mod dungeon;
pub mod enemy;
pub mod game;
pub mod player;
pub mod random;
