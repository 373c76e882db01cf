//! totoon - a verified encoder from tree-shaped data to TOON
//! (Token-Oriented Object Notation), a compact text format meant to
//! reduce the token count of structured data handed to a language model.

pub mod encode;
pub mod escape;
pub mod format;
pub mod laws;
pub mod text;
pub mod value;
