//! Rules engine of Flow Field Chess: board representation, legal move
//! generation, position fingerprints, the laws of legal play, and the integer
//! helpers the flow-field evaluation builds on.

pub mod ai;
pub mod board;
pub mod constants;
pub mod engine;
pub mod fields;
pub mod seq_facts;
pub mod laws;
pub mod move_laws;
pub mod field_laws;
pub mod regions;
pub mod play;
