//! What holds of the library as a whole.

pub mod binary;
pub mod completeness;
pub mod conformance;
pub mod decoding;
pub mod encoding;
pub mod errors;
pub mod header;
pub mod locality;
pub mod locations;
pub mod lookup;
pub mod messages;
pub mod module;
pub mod operands;
pub mod problems;
pub mod protocol;
pub mod types;
