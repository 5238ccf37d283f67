//! Byte encodings, hexadecimal strings and the recording key-value map.

pub mod bytes;
pub mod hex;
pub mod kv_map;
