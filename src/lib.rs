pub mod error_handling;
pub mod text;
pub mod game_logic;
pub mod validation;
pub mod io;
