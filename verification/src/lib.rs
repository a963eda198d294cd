pub mod audio;
pub mod enemy;
pub mod game;
pub mod grid;
pub mod level;
pub mod platform;
pub mod player;
pub mod scroller;
