//! Text forms of bytes and numbers, for showing blocks to the user.

use vstd::prelude::*;

verus! {

/// The lowercase hexadecimal digit for `d` (below 16).
pub open spec fn hex_digit(d: int) -> char {
    if d < 10 {
        (48 + d) as char
    } else {
        (87 + d) as char
    }
}

/// Two lowercase hexadecimal digits per byte, high half first.
pub open spec fn hex_text(bytes: Seq<u8>) -> Seq<char>
    decreases bytes.len(),
{
    if bytes.len() == 0 {
        Seq::empty()
    } else {
        let b = bytes.last();
        hex_text(bytes.drop_last()) + seq![hex_digit(b as int / 16), hex_digit(b as int % 16)]
    }
}

/// The decimal digits of `n`, without leading zeros.
pub open spec fn decimal_text(n: nat) -> Seq<char>
    decreases n,
{
    if n < 10 {
        seq![(48 + n) as char]
    } else {
        decimal_text(n / 10).push((48 + n % 10) as char)
    }
}

/// Calls `hex::encode`; the claim is what its documentation says: two
/// lowercase hexadecimal digits per byte, in order.
#[verifier::external_body]
pub(crate) fn hex_encode(bytes: &[u8]) -> (res: String)
    ensures
        res@ == hex_text(bytes@),
{
    hex::encode(bytes)
}

/// Calls `u64::to_string`; the claim is that it writes `n` in decimal.
#[verifier::external_body]
pub(crate) fn decimal(n: u64) -> (res: String)
    ensures
        res@ == decimal_text(n as nat),
{
    n.to_string()
}

} // verus!
