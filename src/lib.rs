//! A content-addressed object store in the manner of git's loose objects:
//! framing, identifiers, compression, header parsing and tree decoding.

pub mod commands;
pub mod digest;
pub mod error;
pub mod framing;
pub mod objects;
pub mod reader;
pub mod text;
pub mod tree;
pub mod zlib;
