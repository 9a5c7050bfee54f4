pub mod board;
pub mod cell;
pub mod game;
pub mod layout;
