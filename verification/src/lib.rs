pub mod game_checker;
pub mod markers;
pub mod moves;
pub mod table;
