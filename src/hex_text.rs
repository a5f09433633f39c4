use vstd::prelude::*;

verus! {

/// The lowercase hexadecimal digit of `v`, for `v < 16`.
pub open spec fn hex_digit(v: nat) -> char {
    seq!['0', '1', '2', '3', '4', '5', '6', '7', '8', '9', 'a', 'b', 'c', 'd', 'e', 'f'][v as int]
}

/// Two lowercase hexadecimal digits per byte, the high half of the byte first.
pub open spec fn hex_text(bytes: Seq<u8>) -> Seq<char>
    decreases bytes.len(),
{
    if bytes.len() == 0 {
        Seq::empty()
    } else {
        hex_text(bytes.drop_last()) + seq![
            hex_digit(bytes.last() as nat / 16),
            hex_digit(bytes.last() as nat % 16),
        ]
    }
}

/// Relies on `hex::encode`: it writes each byte as two lowercase hexadecimal digits,
/// the high half first, in the order of the bytes.
#[verifier::external_body]
pub(crate) fn encode_hex(bytes: &Vec<u8>) -> (r: String)
    ensures
        r@ == hex_text(bytes@),
{
    hex::encode(bytes)
}

} // verus!
