//! A fused JSON parser / MessagePack encoder.
//!
//! The library reads a JSON document held in memory as a codepoint sequence
//! and emits its MessagePack encoding directly, choosing the most compact
//! wire representation for every value, without building an intermediate
//! tree.  Containers buffer their encoded body in a private scratch sink and
//! prepend the correctly sized header once their element count is known.
//!
//! Number tokens that are not integers are encoded as 64-bit floats; the
//! IEEE-754 bit patterns for those tokens are supplied by the caller (see
//! [`parser::encode_document`]), so that everything the library itself
//! computes is verified.

pub mod value;
pub mod encoding;
pub mod grammar;
pub mod parser;
