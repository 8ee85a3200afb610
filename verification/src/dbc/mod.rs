//! DBC database: types, parsing, layout checks, and frame decoding.

pub mod check;
pub mod parser;
pub mod types;

pub use check::{check, Problem};
pub use parser::parse;
pub use types::{ByteOrder, Database, Decoded, Message, Multiplexing, Signal, ValueType};
