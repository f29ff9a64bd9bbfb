//! A minimal in-memory key-value store reached over a line-oriented protocol.
//!
//! Values are weakly typed: a token that denotes a finite decimal number is
//! stored as a numeric value in a canonical rendering, any other token is
//! stored as opaque text.  Commands (`set`/`get`) arrive as whitespace-
//! separated lines; the connection registry surfaces complete request lines
//! from per-connection byte buffers and reaps closed connections.

pub mod database;
pub mod parser;
pub mod registry;
pub mod numeric;
pub mod types;
