//! RDF terms, statements and graphs, with a verified NTriples reader.

pub mod error;
pub mod grammar;
pub mod graph;
pub mod laws;
pub mod lex;
pub mod ntriples;
pub mod serialize;
pub mod statement;
pub mod term;
pub mod text;
