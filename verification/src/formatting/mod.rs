//! Text layout: documents that a pretty printer fits to a width, and
//! hexadecimal display of bytes.

pub mod document;
pub mod print;
pub mod hex;
