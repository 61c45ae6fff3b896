//! A first-person ray-casting maze game: the verified core.
//!
//! The library holds the parts of the game that decide and compute on
//! plain values: the pixel buffer and the drawing primitives, the bitmap
//! font, the level text format, the grid queries that movement and the
//! ray caster rely on, the placement of sprites, the procedurally drawn
//! chest sprite, the texture store and the menu/HUD texts.

pub mod font;
pub mod framebuffer;
pub mod maze;
pub mod player;
pub mod render;
pub mod sprite;
pub mod state;
pub mod textures;
