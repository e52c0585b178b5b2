//! A branching dialogue engine: a validated graph of nodes and choice links,
//! a traversal session over it, and a plain-text authoring format.

pub mod engine;
pub mod writer;
pub mod parser;
pub mod round_trip;
