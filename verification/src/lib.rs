//! A small blockchain-like data model (headers, blocks, transactions) together
//! with four binary wire formats for it: a flat fixed-layout format, a
//! tag-prefixed format, a compact size-prefixed table format, and an
//! offset-based format with lazily addressed fields.  Every encoder and
//! decoder carries a contract relating it to a mathematical description of
//! the format, and the round-trip laws are proved.

pub mod bytes;
pub mod errors;
pub mod fixed;
pub mod generate;
pub mod laws;
pub mod model;
pub mod proto;
pub mod table;
pub mod tagged;

pub use errors::DecodeError;
pub use model::{Block, CellInput, CellOutput, Header, OutPoint, Seal, Transaction, U256};
pub use tagged::FlatbuffersVectorIterator;
