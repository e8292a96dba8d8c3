pub mod compression;
pub mod brushes;
pub mod state;
