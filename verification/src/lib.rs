//! A verified codec for the DNS wire format.
//!
//! The crate decodes a fixed-size UDP datagram into a structured message
//! (header, questions, resource records) and re-encodes a structured message
//! back into wire bytes.  All integer fields are big-endian (network byte
//! order).  Domain names are read and written in the DNS label format,
//! including compression-pointer dereferencing with a bounded hop count on
//! the read side.

pub mod buffer;
pub mod header;
pub mod name;
pub mod packet;
pub mod response;
