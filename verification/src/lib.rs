//! A Turing-machine execution engine: a parser for textual machine
//! descriptions and two stepping engines, one for machines whose transition
//! table is a function and one for machines whose table is a relation.

pub mod laws;
pub mod machine;
pub mod multi;
pub mod render;
pub mod rule;
pub mod single;
pub mod tape;
pub mod text;
pub mod token;
