//! Bytes displayed as lowercase hexadecimal.

use vstd::prelude::*;
use crate::utils::hex::{hex_chars, push_char, push_hex_chars};

verus! {

/// Bytes shown as hexadecimal.
pub struct DisplayHex<'a>(pub &'a [u8]);

impl<'a> DisplayHex<'a> {
    /// The hexadecimal display of `bytes`.
    pub fn new(bytes: &'a [u8]) -> (r: Self)
        ensures
            r.0@ == bytes@,
    {
        DisplayHex(bytes)
    }
}

/// Values with a hexadecimal form.
pub trait ToHex {
    /// Two lowercase hexadecimal digits per byte.
    fn to_hex(&self) -> String;

    /// The same, after `0x`.
    fn to_hex_with_prefix(&self) -> String;
}

impl<'a> ToHex for DisplayHex<'a> {
    fn to_hex(&self) -> (r: String)
        ensures
            r@ == hex_chars(self.0@),
    {
        let mut s = String::new();
        push_hex_chars(&mut s, self.0);
        assert(s@ =~= hex_chars(self.0@));
        s
    }

    fn to_hex_with_prefix(&self) -> (r: String)
        ensures
            r@ == seq!['0', 'x'] + hex_chars(self.0@),
    {
        let mut s = String::new();
        push_char(&mut s, '0');
        push_char(&mut s, 'x');
        push_hex_chars(&mut s, self.0);
        s
    }
}

} // verus!
