pub mod convenience;
pub mod engine;
pub mod laws;
pub mod ring;
pub mod stmt;
pub mod token;
