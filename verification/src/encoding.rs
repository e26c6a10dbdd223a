//! Hexadecimal encoding of byte strings, computed by the `hex` crate.

use vstd::prelude::*;

verus! {

/// The lowercase hexadecimal digit of `n`, for `0 <= n < 16`.
pub open spec fn hex_digit(n: int) -> char {
    if n < 10 {
        (48 + n) as char
    } else {
        (87 + n) as char
    }
}

/// Lowercase hexadecimal text of `data`: two digits per byte, the high
/// nibble first.
pub open spec fn hex_lower(data: Seq<u8>) -> Seq<char> {
    Seq::new(2 * data.len(), |i: int| hex_digit(if i % 2 == 0 { data[i / 2] / 16 } else { data[i / 2] % 16 } as int))
}

/// `hex::encode(data)`: the crate maps each byte to the characters of
/// `"0123456789abcdef"` at its high nibble and then at its low nibble, which
/// is what `hex_lower` states.
#[verifier::external_body]
pub(crate) fn hex_encode(data: &[u8]) -> (r: String)
    ensures
        r@ == hex_lower(data@),
{
    hex::encode(data)
}

} // verus!
