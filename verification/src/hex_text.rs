//! Hexadecimal text: two digits per byte, high nibble first.

use vstd::prelude::*;
use vstd::string::StringSliceAdditionalSpecFns;

verus! {

/// Why a text is not hexadecimal.
#[derive(Debug, Clone, Copy, PartialEq, Eq, Structural)]
pub enum HexError {
    /// The byte at `index` is not a hexadecimal digit.
    InvalidHexCharacter { c: char, index: usize },
    /// The text has an odd number of bytes.
    OddLength,
    /// The text does not fit the fixed size asked for.
    InvalidStringLength,
}

/// The value of a hexadecimal digit (either case), if the byte is one.
pub open spec fn hex_digit_value(b: u8) -> Option<u8> {
    if 0x30 <= b <= 0x39 {
        Some((b - 0x30) as u8)
    } else if 0x61 <= b <= 0x66 {
        Some((b - 0x61 + 10) as u8)
    } else if 0x41 <= b <= 0x46 {
        Some((b - 0x41 + 10) as u8)
    } else {
        None
    }
}

/// The first index at or after `k` whose byte is not a hexadecimal digit, or
/// the length when there is none.
pub open spec fn first_non_hex_from(text: Seq<u8>, k: int) -> int
    decreases text.len() - k,
{
    if k < 0 || k >= text.len() {
        text.len() as int
    } else if hex_digit_value(text[k]) is None {
        k
    } else {
        first_non_hex_from(text, k + 1)
    }
}

/// The byte written by the two digits at `2 * k` and `2 * k + 1`.
pub open spec fn hex_pair(text: Seq<u8>, k: int) -> u8 {
    (hex_digit_value(text[2 * k])->0 * 16 + hex_digit_value(text[2 * k + 1])->0) as u8
}

/// What decoding the bytes of a hexadecimal text gives: an odd length is
/// refused first, then the first byte that is not a digit, else one byte for
/// every two digits.
pub open spec fn hex_decoded(text: Seq<u8>) -> Result<Seq<u8>, HexError> {
    if text.len() % 2 != 0 {
        Err(HexError::OddLength)
    } else {
        let bad = first_non_hex_from(text, 0);
        if bad < text.len() {
            Err(HexError::InvalidHexCharacter { c: text[bad] as char, index: bad as usize })
        } else {
            Ok(Seq::new(text.len() / 2, |k: int| hex_pair(text, k)))
        }
    }
}

/// The lower-case hexadecimal digit for a nibble.
pub open spec fn hex_char(nibble: int) -> char {
    if nibble < 10 {
        (48 + nibble) as char
    } else {
        (87 + nibble) as char
    }
}

/// The lower-case hexadecimal text of `data`: two digits per byte, the high
/// nibble first.
pub open spec fn hex_encoded(data: Seq<u8>) -> Seq<char> {
    Seq::new(
        2 * data.len(),
        |k: int|
            if k % 2 == 0 {
                hex_char((data[k / 2] / 16) as int)
            } else {
                hex_char((data[k / 2] % 16) as int)
            },
    )
}

/// `hex::decode`, on the bytes of a text: as `hex_decoded` says.
#[verifier::external_body]
fn decode_with_hex_crate(text: &[u8]) -> (decoded: Result<Vec<u8>, HexError>)
    ensures
        match decoded {
            Ok(bytes) => hex_decoded(text@) == Ok::<Seq<u8>, HexError>(bytes@),
            Err(e) => hex_decoded(text@) == Err::<Seq<u8>, HexError>(e),
        },
{
    match hex::decode(text) {
        Ok(bytes) => Ok(bytes),
        Err(hex::FromHexError::InvalidHexCharacter { c, index }) => Err(
            HexError::InvalidHexCharacter { c, index },
        ),
        Err(hex::FromHexError::OddLength) => Err(HexError::OddLength),
        Err(hex::FromHexError::InvalidStringLength) => Err(HexError::InvalidStringLength),
    }
}

/// `hex::encode`: the lower-case hexadecimal text of `data`.
#[verifier::external_body]
fn encode_with_hex_crate(data: &[u8]) -> (text: String)
    ensures
        text@ == hex_encoded(data@),
{
    hex::encode(data)
}

/// Decodes a hexadecimal text (its UTF-8 bytes), as `hex_decoded` says.
pub fn decode_hex(text: &str) -> (decoded: Result<Vec<u8>, HexError>)
    ensures
        match decoded {
            Ok(bytes) => hex_decoded(text.spec_bytes()) == Ok::<Seq<u8>, HexError>(bytes@),
            Err(e) => hex_decoded(text.spec_bytes()) == Err::<Seq<u8>, HexError>(e),
        },
{
    decode_with_hex_crate(text.as_bytes())
}

/// Encodes `data` as lower-case hexadecimal text.
pub fn encode_hex(data: &[u8]) -> (text: String)
    ensures
        text@ == hex_encoded(data@),
{
    encode_with_hex_crate(data)
}

/// Every byte from `k` on is a digit: the first non-digit is past the end.
proof fn lemma_all_digits(text: Seq<u8>, k: int)
    requires
        0 <= k <= text.len(),
        forall|j: int| k <= j < text.len() ==> hex_digit_value(#[trigger] text[j]) is Some,
    ensures
        first_non_hex_from(text, k) == text.len(),
    decreases text.len() - k,
{
    if k < text.len() {
        lemma_all_digits(text, k + 1);
    }
}

/// Hexadecimal text is ASCII, and decoding its bytes gives back the data.
pub proof fn lemma_hex_roundtrip(data: Seq<u8>)
    ensures
        vstd::utf8::is_ascii_chars(hex_encoded(data)),
        hex_decoded(vstd::utf8::encode_utf8(hex_encoded(data))) == Ok::<Seq<u8>, HexError>(data),
{
    let chars = hex_encoded(data);
    assert(vstd::utf8::is_ascii_chars(chars));
    vstd::utf8::is_ascii_chars_encode_utf8(chars);
    let text = vstd::utf8::encode_utf8(chars);
    assert forall|j: int| 0 <= j < text.len() implies hex_digit_value(#[trigger] text[j]) == Some(
        (if j % 2 == 0 {
            data[j / 2] / 16
        } else {
            data[j / 2] % 16
        }) as u8,
    ) by {
        assert(text[j] == chars[j] as u8);
    }
    lemma_all_digits(text, 0);
    let decoded = Seq::new(text.len() / 2, |k: int| hex_pair(text, k));
    assert forall|k: int| 0 <= k < data.len() implies #[trigger] decoded[k] == data[k] by {
        assert(hex_digit_value(text[2 * k]) == Some((data[k] / 16) as u8));
        assert(hex_digit_value(text[2 * k + 1]) == Some((data[k] % 16) as u8));
    }
    assert(decoded =~= data);
}

} // verus!
