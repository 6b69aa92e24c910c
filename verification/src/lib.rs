//! A persistent, embeddable key-value store in the Bitcask style: an
//! append-only log of CRC-framed records, paired with an in-memory keydir
//! that maps each live key to the byte span of its most recent value.
//!
//! The store engine works over an in-memory model of the base directory
//! (segment bytes and hint bytes); a host shell performs the actual file
//! system reads and writes and hands the bytes to the engine.
pub mod block;
pub mod bitcask;
pub mod dirmodel;
pub mod errors;
pub mod hint;
pub mod keydir;
pub mod lex;
pub mod utils;
