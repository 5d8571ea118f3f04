//! Diagnostic renderings of 64-bit values in lowercase hexadecimal and in
//! binary, used when describing decoded records.

use vstd::prelude::*;
use crate::text::{render_num, render_digits, string_of_chars};

verus! {

/// A 64-bit value to be rendered in lowercase hexadecimal.
#[derive(Copy, Clone, Debug, PartialEq, Eq, Structural)]
pub struct Hex(pub u64);

impl Hex {
    /// The minimal-length lowercase hexadecimal rendering of the value.
    pub fn render(&self) -> (r: String)
        ensures
            r@ == render_num(self.0 as nat, 16),
    {
        let digits = render_digits(self.0, 16);
        string_of_chars(digits.as_slice())
    }
}

/// A 64-bit value to be rendered in binary.
#[derive(Copy, Clone, Debug, PartialEq, Eq, Structural)]
pub struct Binary(pub u64);

impl Binary {
    /// The minimal-length binary rendering of the value.
    pub fn render(&self) -> (r: String)
        ensures
            r@ == render_num(self.0 as nat, 2),
    {
        let digits = render_digits(self.0, 2);
        string_of_chars(digits.as_slice())
    }
}

} // verus!
