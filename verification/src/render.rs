pub mod hud;
pub mod minimap;
pub mod screen;
pub mod walls;
