//! A compact, immutable byte-string index stored as a finite-state transducer:
//! the per-node binary record layout, the byte sources that records are read
//! through, and a compiler from regular-expression trees to byte programs.
//!
//! - `byte_source`: views into byte buffers and the source interface.
//! - `pack`: little-endian variable-width integers.
//! - `common_inputs`: the table of frequent input bytes.
//! - `layout`: what the bytes of a node record mean.
//! - `node`: decoding a node record.
//! - `encode`: writing a node record.
//! - `roundtrip`: what is written reads back.
//! - `regex`: lowering a regular-expression tree to a byte program.
//! - `records`: plain records of the address tools.
use vstd::prelude::*;

pub mod byte_source;
pub mod common_inputs;
pub mod encode;
pub mod layout;
pub mod node;
pub mod pack;
pub mod records;
pub mod regex;
pub mod roundtrip;
