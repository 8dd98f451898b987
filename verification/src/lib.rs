pub mod beam;
pub mod grid;
pub mod level;
pub mod mirror;
pub mod types;
