//! The configuration tables of the game.

pub mod gconfig_table;
pub mod role_table;
