//! Hexadecimal text.
use vstd::prelude::*;
use vstd::string::*;
use vstd::utf8::*;

verus! {

/// The character of a hexadecimal digit, in lower case.
pub open spec fn hex_char(d: int) -> char
    recommends
        0 <= d < 16,
{
    if d < 10 {
        (d + 48) as char
    } else {
        (d + 87) as char
    }
}

/// Two digits for each byte, the high one first.
pub open spec fn hex_text(bytes: Seq<u8>) -> Seq<char> {
    Seq::new(
        2 * bytes.len(),
        |i: int|
            if i % 2 == 0 {
                hex_char((bytes[i / 2] / 16) as int)
            } else {
                hex_char((bytes[i / 2] % 16) as int)
            },
    )
}

/// The value of a hexadecimal digit of either case.
pub open spec fn hex_value(c: u8) -> Option<int> {
    if 48 <= c <= 57 {
        Some(c - 48)
    } else if 65 <= c <= 70 {
        Some(c - 55)
    } else if 97 <= c <= 102 {
        Some(c - 87)
    } else {
        None
    }
}

/// Why a text does not name a relay.
#[derive(Debug, Clone, Copy, PartialEq, Eq, Structural)]
pub enum HexError {
    /// The byte at `index` is not a hexadecimal digit.
    InvalidCharacter { c: char, index: usize },
    /// The number of digits is odd.
    OddLength,
    /// The number of digits is not twice the number of bytes.
    InvalidLength,
}

/// Whether place `i` holds the first byte that is not a digit.
pub open spec fn first_bad_digit(data: Seq<u8>, i: int) -> bool {
    &&& 0 <= i < data.len()
    &&& hex_value(data[i]) is None
    &&& forall|j: int| 0 <= j < i ==> hex_value(#[trigger] data[j]) is Some
}

/// What reading four bytes from the UTF-8 form of a text gives.
pub open spec fn decodes_to(data: Seq<u8>, res: Result<[u8; 4], HexError>) -> bool {
    match res {
        Ok(bytes) => {
            &&& data.len() == 8
            &&& forall|i: int| 0 <= i < 8 ==> hex_value(#[trigger] data[i]) is Some
            &&& forall|i: int|
                0 <= i < 4 ==> (#[trigger] bytes@[i]) == hex_value(data[2 * i])->0 * 16 + hex_value(
                    data[2 * i + 1],
                )->0
        },
        Err(HexError::OddLength) => data.len() % 2 != 0,
        Err(HexError::InvalidLength) => data.len() % 2 == 0 && data.len() != 8,
        Err(HexError::InvalidCharacter { c, index }) => {
            &&& data.len() == 8
            &&& first_bad_digit(data, index as int)
            &&& c == data[index as int] as char
        },
    }
}

/// `hex::encode`: the lower-case hexadecimal digits of the bytes, two for each,
/// high digit first.
#[verifier::external_body]
pub(crate) fn encode(bytes: &[u8]) -> (text: String)
    ensures
        text@ == hex_text(bytes@),
{
    hex::encode(bytes)
}

/// `hex::decode_to_slice` into four bytes: it refuses an odd number of digits,
/// then any number but eight, then the first byte that is no digit, which it
/// reports with its place; else it fills the four bytes from the digits.
#[verifier::external_body]
fn decode_four(text: &str) -> (res: Result<[u8; 4], HexError>)
    ensures
        decodes_to(text.spec_bytes(), res),
{
    let mut out: [u8; 4] = [0; 4];
    match hex::decode_to_slice(text, &mut out) {
        Ok(()) => Ok(out),
        Err(hex::FromHexError::InvalidHexCharacter { c, index }) => {
            Err(HexError::InvalidCharacter { c, index })
        }
        Err(hex::FromHexError::OddLength) => Err(HexError::OddLength),
        Err(hex::FromHexError::InvalidStringLength) => Err(HexError::InvalidLength),
    }
}

/// The text of the error that `hex` gives for a character that is no digit.
pub uninterp spec fn bad_digit_message(c: char, index: nat) -> Seq<char>;

/// The `Display` form of `hex::FromHexError::InvalidHexCharacter`: it quotes the
/// character, escaped where need be, and its place.
#[verifier::external_body]
pub(crate) fn bad_digit_text(c: char, index: usize) -> (text: String)
    ensures
        text@ == bad_digit_message(c, index as nat),
{
    hex::FromHexError::InvalidHexCharacter { c, index }.to_string()
}

/// The text form of a relay identifier.
pub fn relay_text(id: &[u8; 4]) -> (text: String)
    ensures
        text@ == hex_text(id@),
{
    encode(id.as_slice())
}

/// Reads a relay identifier.
pub fn parse_relay(text: &str) -> (res: Result<[u8; 4], HexError>)
    ensures
        decodes_to(text.spec_bytes(), res),
{
    decode_four(text)
}

/// Reading the text form of an identifier gives the identifier back.
pub proof fn text_form_reads_back(id: [u8; 4], text: Seq<char>, res: Result<[u8; 4], HexError>)
    requires
        text == hex_text(id@),
        decodes_to(encode_utf8(text), res),
    ensures
        res == Ok::<[u8; 4], HexError>(id),
{
    let data = encode_utf8(text);
    assert(is_ascii_chars(text)) by {
        assert forall|i: int| 0 <= i < text.len() implies '\0' <= #[trigger] text[i] <= '\u{7f}' by {
        }
    }
    is_ascii_chars_encode_utf8(text);
    assert(data.len() == 8);
    assert forall|i: int| 0 <= i < 8 implies #[trigger] hex_value(data[i]) == Some(
        if i % 2 == 0 {
            (id@[i / 2] / 16) as int
        } else {
            (id@[i / 2] % 16) as int
        },
    ) by {
        assert(data[i] == text[i] as u8);
    }
    match res {
        Ok(bytes) => {
            assert forall|i: int| 0 <= i < 4 implies bytes@[i] == id@[i] by {
                assert(hex_value(data[2 * i]) == Some((id@[i] / 16) as int));
                assert(hex_value(data[2 * i + 1]) == Some((id@[i] % 16) as int));
            }
            assert(bytes@ =~= id@);
            assert(bytes =~= id);
        },
        Err(HexError::InvalidCharacter { c, index }) => {
            assert(hex_value(data[index as int]) is Some);
        },
        Err(_) => {},
    }
}

} // verus!
