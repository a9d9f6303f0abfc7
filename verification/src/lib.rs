//! Decoder for the `mappings` field of a source map, with a position lookup.
//!
//! [`parse`] turns the mapping string into a table that holds, for each line
//! of generated code and each segment on it, the source position that the
//! segment maps to. [`to_source`] answers from that table which source
//! position belongs to a generated line and column.

pub mod alphabet;
pub mod encoding;
pub mod lookup;
pub mod mapping;
pub mod parser;
pub mod text;
pub mod vlq;
pub mod word;

pub use alphabet::{create_lookup_tables, COMMA_CHAR, SEMICOLON_CHAR, SPACE_CHAR, VLQ_TABLE};
pub use lookup::to_source;
pub use mapping::{process, Entry, Mappings, RawMappings};
pub use parser::parse;
pub use vlq::decode;
