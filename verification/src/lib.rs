pub mod command;
pub mod steam;
pub mod text;
pub mod vdf;
