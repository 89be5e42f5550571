//! An ISO 8583 financial message codec.
//!
//! The library parses a byte buffer holding a single ISO 8583 message into a
//! positional field table under the guidance of a message specification,
//! supports field-level inspection and mutation, and re-serializes the result
//! into the wire layout with the bitmap recomputed from field presence.

pub mod bits;
pub mod error;
pub mod hex;
pub mod iso_field;
pub mod iso_msg;
pub mod laws;
pub mod model;

pub use error::IsoError;
pub use iso_msg::IsoMsg;
pub use iso_msg::IsoSpecs;
