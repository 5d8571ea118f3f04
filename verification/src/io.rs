//! Decoding of the packed 8-byte records that the binary backing tables
//! consist of.

use vstd::prelude::*;
use crate::error::Error;

verus! {

/// The value of the first eight bytes of `s` read as one unsigned 64-bit
/// integer, least significant byte first.
pub open spec fn le_u64_val(s: Seq<u8>) -> nat
    recommends
        s.len() >= 8,
{
    (s[0] as nat) + (s[1] as nat) * 0x100 + (s[2] as nat) * 0x1_0000 + (s[3] as nat) * 0x100_0000
        + (s[4] as nat) * 0x1_0000_0000 + (s[5] as nat) * 0x100_0000_0000 + (s[6] as nat)
        * 0x1_0000_0000_0000 + (s[7] as nat) * 0x100_0000_0000_0000
}

/// Reads one 8-byte unsigned integer from the start of `bytes`, least
/// significant byte first.  Fails exactly when fewer than 8 bytes are given,
/// mirroring a short read of a backing table.
pub fn read_u64(bytes: &[u8]) -> (r: Result<u64, Error>)
    ensures
        match r {
            Ok(v) => bytes@.len() >= 8 && v as nat == le_u64_val(bytes@),
            Err(e) => bytes@.len() < 8 && e is IO,
        },
{
    if bytes.len() < 8 {
        return Err(Error::IO { message: String::from_str("short read: fewer than 8 bytes") });
    }
    let v: u64 = (bytes[0] as u64) + (bytes[1] as u64) * 0x100 + (bytes[2] as u64) * 0x1_0000 + (
    bytes[3] as u64) * 0x100_0000 + (bytes[4] as u64) * 0x1_0000_0000 + (bytes[5] as u64)
        * 0x100_0000_0000 + (bytes[6] as u64) * 0x1_0000_0000_0000 + (bytes[7] as u64)
        * 0x100_0000_0000_0000;
    Ok(v)
}

} // verus!
