//! Streaming, resynchronizing frame parser for the UBX binary wire protocol.
//!
//! Bytes arrive in arbitrarily sized chunks; the parser reassembles them into
//! length-delimited, checksum-validated frames, tolerating noise, frames split
//! across chunk boundaries, and corrupted data, in bounded memory.

pub mod checksum;
pub mod laws;
pub mod packets;
pub mod parser;
pub mod ring;
pub mod scan;
