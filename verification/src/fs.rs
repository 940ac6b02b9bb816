//! The stored form of the two circuit artifacts. Public parameters are
//! stored as they are; a proof is stored as hexadecimal text.

use ethers::utils::hex::FromHexError;
use vstd::prelude::*;

verus! {

/// The two artifacts that are kept in store.
#[derive(Clone, Copy, Debug, PartialEq, Eq, Structural)]
pub enum CircuitFile {
    Proof,
    PubParams,
}

/// Why stored bytes could not be read back.
#[derive(Clone, Copy, Debug, PartialEq, Eq)]
pub enum LoadError {
    /// A stored proof is no hexadecimal text; the decoder's own report is
    /// carried along.
    InvalidHex(FromHexError),
}

/// The error type of `ethers::utils::hex::decode`. Verus does not look into
/// it: a value is handed on as it came.
#[verifier::external_type_specification]
#[verifier::external_body]
pub struct ExFromHexError(FromHexError);

/// The lower-case hexadecimal digit, in ASCII, of a value below sixteen.
pub open spec fn hex_digit(value: int) -> u8 {
    if value < 10 {
        (0x30 + value) as u8
    } else {
        (0x61 + value - 10) as u8
    }
}

/// The value of a hexadecimal digit in ASCII, of either case.
pub open spec fn hex_value(digit: u8) -> Option<int> {
    if 0x30 <= digit <= 0x39 {
        Some(digit - 0x30)
    } else if 0x61 <= digit <= 0x66 {
        Some(digit - 0x61 + 10)
    } else if 0x41 <= digit <= 0x46 {
        Some(digit - 0x41 + 10)
    } else {
        None
    }
}

/// Hexadecimal text of `data`: two lower-case digits for each byte, the high
/// half first.
pub open spec fn hex_text(data: Seq<u8>) -> Seq<u8> {
    Seq::new(
        2 * data.len(),
        |i: int|
            if i % 2 == 0 {
                hex_digit(data[i / 2] as int / 16)
            } else {
                hex_digit(data[i / 2] as int % 16)
            },
    )
}

/// The digits of a hexadecimal text: the text without a leading `0x` or
/// `0X`, where it has one.
pub open spec fn hex_body(text: Seq<u8>) -> Seq<u8> {
    if text.len() >= 2 && text[0] == 0x30 && (text[1] == 0x78 || text[1] == 0x58) {
        text.skip(2)
    } else {
        text
    }
}

/// Whether `text` is hexadecimal text: of even length, and digits throughout
/// after an optional prefix.
pub open spec fn is_hex_text(text: Seq<u8>) -> bool {
    &&& text.len() % 2 == 0
    &&& forall|i: int| 0 <= i < hex_body(text).len() ==> hex_value(#[trigger] hex_body(text)[i]) is Some
}

/// The bytes that a hexadecimal text stands for.
pub open spec fn hex_bytes(text: Seq<u8>) -> Seq<u8> {
    let body = hex_body(text);
    Seq::new(
        body.len() / 2,
        |i: int| (16 * hex_value(body[2 * i]).unwrap() + hex_value(body[2 * i + 1]).unwrap()) as u8,
    )
}

/// Calls `ethers::utils::hex::encode`. Taken on trust: the text that comes
/// back holds two lower-case digits for each byte of `data`, the high half
/// first, and no prefix.
#[verifier::external_body]
fn hex_encode(data: &[u8]) -> (text: Vec<u8>)
    ensures
        text@ == hex_text(data@),
{
    ethers::utils::hex::encode(data).into_bytes()
}

/// Calls `ethers::utils::hex::decode`. Taken on trust: a text of even
/// length that holds only digits of either case, after a leading `0x` or
/// `0X` if there is one, gives the bytes that its pairs of digits stand
/// for; any other text gives an error.
#[verifier::external_body]
fn hex_decode(text: &[u8]) -> (result: Result<Vec<u8>, FromHexError>)
    ensures
        match result {
            Ok(data) => is_hex_text(text@) && data@ == hex_bytes(text@),
            Err(_) => !is_hex_text(text@),
        },
{
    ethers::utils::hex::decode(text)
}

/// The bytes under which an artifact is stored.
pub open spec fn stored_form(file: CircuitFile, data: Seq<u8>) -> Seq<u8> {
    match file {
        CircuitFile::Proof => hex_text(data),
        CircuitFile::PubParams => data,
    }
}

/// Whether stored bytes can be read back as the artifact `file`.
pub open spec fn is_stored_form(file: CircuitFile, stored: Seq<u8>) -> bool {
    match file {
        CircuitFile::Proof => is_hex_text(stored),
        CircuitFile::PubParams => true,
    }
}

/// The artifact that stored bytes stand for, where they can be read back.
pub open spec fn loaded_form(file: CircuitFile, stored: Seq<u8>) -> Seq<u8> {
    match file {
        CircuitFile::Proof => hex_bytes(stored),
        CircuitFile::PubParams => stored,
    }
}

/// Reads an artifact back from the bytes that were stored for it.
pub fn load(file: CircuitFile, stored: &[u8]) -> (result: Result<Vec<u8>, LoadError>)
    ensures
        result is Ok <==> is_stored_form(file, stored@),
        result matches Ok(data) ==> data@ == loaded_form(file, stored@),
        result matches Err(e) ==> e is InvalidHex && file == CircuitFile::Proof,
{
    match file {
        CircuitFile::Proof => match hex_decode(stored) {
            Ok(data) => Ok(data),
            Err(e) => Err(LoadError::InvalidHex(e)),
        },
        CircuitFile::PubParams => Ok(vstd::slice::slice_to_vec(stored)),
    }
}

/// Gives the bytes to store for an artifact.
pub fn save(file: CircuitFile, data: &[u8]) -> (stored: Vec<u8>)
    ensures
        stored@ == stored_form(file, data@),
{
    match file {
        CircuitFile::Proof => hex_encode(data),
        CircuitFile::PubParams => vstd::slice::slice_to_vec(data),
    }
}

/// Hexadecimal text of any bytes is read back as those bytes.
pub proof fn lemma_hex_round_trip(data: Seq<u8>)
    ensures
        is_hex_text(hex_text(data)),
        hex_bytes(hex_text(data)) == data,
{
    let text = hex_text(data);
    assert forall|i: int| 0 <= i < text.len() implies 0x30 <= #[trigger] text[i] <= 0x39 || 0x61
        <= text[i] <= 0x66 by {
        let b = data[i / 2] as int;
        assert(0 <= b / 16 < 16 && 0 <= b % 16 < 16);
    }
    assert(hex_body(text) == text) by {
        if text.len() >= 2 {
            assert(text[1] != 0x78 && text[1] != 0x58);
        }
    }
    assert(hex_bytes(text) =~= data) by {
        assert forall|i: int| 0 <= i < data.len() implies hex_bytes(text)[i] == data[i] by {
            let b = data[i] as int;
            assert((2 * i) % 2 == 0 && (2 * i) / 2 == i);
            assert((2 * i + 1) % 2 == 1 && (2 * i + 1) / 2 == i);
            assert(text[2 * i] == hex_digit(b / 16));
            assert(text[2 * i + 1] == hex_digit(b % 16));
            assert(0 <= b / 16 < 16 && 0 <= b % 16 < 16);
            assert(16 * (b / 16) + b % 16 == b);
        }
    }
}

/// What `save` stores, `load` reads back unchanged, for either artifact.
pub proof fn lemma_load_inverts_save(file: CircuitFile, data: Seq<u8>)
    ensures
        is_stored_form(file, stored_form(file, data)),
        loaded_form(file, stored_form(file, data)) == data,
{
    lemma_hex_round_trip(data);
}

} // verus!
