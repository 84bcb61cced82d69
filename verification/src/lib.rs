//! The logic of a 2D platformer, verified: the collision rectangles built
//! from a level's tile grid, the player's input as it is gathered per frame
//! and spent per fixed step, and the decision to spawn the player.
pub mod tiles;
pub mod plates;
pub mod rects;
pub mod collision;
pub mod input;
pub mod spawn;
