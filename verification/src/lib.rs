//! Parsing and indexing for two line-oriented genomics file formats: an
//! assembly-graph format (segments and links) and an annotation format
//! (features grouped by landmark), together with a byte-offset landmark
//! index that supports region queries without rescanning the whole file.

pub mod errors;
pub mod feature;
pub mod genome;
pub mod gfa;
pub mod gff3;
pub mod states;
pub mod structs;
pub mod tags;
pub mod text;

pub use states::AppState;
