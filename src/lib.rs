//! A small content-addressed object store and the pack format that fills
//! it: loose objects addressed by their SHA-1, variable-length integers,
//! delta reconstruction, pack decoding, tree parsing and checkout planning,
//! commits, and the text exchanged around a clone.

pub mod bytes;
pub mod error;
pub mod hashing;
pub mod zlib;
pub mod varint;
pub mod delta;
pub mod object;
pub mod pack;
pub mod tree;
pub mod commit;
pub mod protocol;
