//! Compact on-disk index for large sorted sets of fixed-length binary keys
//! (hashes), with an optional fixed-length payload per key.
pub mod bits;
pub mod buf_read;
pub mod builder;
pub mod bytes;
pub mod depth;
pub mod errors;
pub mod format;
pub mod hashlist;
pub mod header;
pub mod hex;
pub mod key_suffix;
pub mod key_type;
pub mod keys;
pub mod order;
pub mod prefix;
pub mod range_law;
pub mod read_at;
pub mod reader;
pub mod round_trip;
pub mod table;
pub mod typed;
