//! The calls that leave verified code. Each function here states what the
//! callee is documented to do; Verus takes that statement on trust.

use vstd::prelude::*;
use vstd::utf8::*;

verus! {

/// What `String::from_utf8_lossy` makes of bytes that are not valid UTF-8:
/// the text with U+FFFD in place of each malformed sequence.
pub uninterp spec fn utf8_lossy(bytes: Seq<u8>) -> Seq<char>;

/// The text that a byte string is read as: its decoding where it is valid
/// UTF-8, and the lossy reading otherwise.
pub open spec fn text_of(bytes: Seq<u8>) -> Seq<char> {
    if valid_utf8(bytes) {
        decode_utf8(bytes)
    } else {
        utf8_lossy(bytes)
    }
}

/// Calls `String::from_utf8_lossy`. Valid UTF-8 comes back as the string it
/// encodes; anything else as the lossy reading, which depends on the bytes
/// alone.
#[verifier::external_body]
pub(crate) fn lossy_text(bytes: &[u8]) -> (text: String)
    ensures
        valid_utf8(bytes@) ==> text@ == decode_utf8(bytes@),
        !valid_utf8(bytes@) ==> text@ == utf8_lossy(bytes@),
{
    String::from_utf8_lossy(bytes).into_owned()
}

/// Calls `String::from_utf8`, which accepts exactly the byte strings that are
/// valid UTF-8 and returns the string that they encode.
#[verifier::external_body]
pub(crate) fn string_from_utf8(bytes: Vec<u8>) -> (text: Option<String>)
    ensures
        match text {
            Some(s) => valid_utf8(bytes@) && s@ == decode_utf8(bytes@),
            None => !valid_utf8(bytes@),
        },
{
    String::from_utf8(bytes).ok()
}

/// Whether `serde_json` reads the bytes as one JSON value.
pub uninterp spec fn json_valid(bytes: Seq<u8>) -> bool;

/// Calls `serde_json::from_slice` for a `serde_json::Value` and tells whether
/// it succeeded: whether the bytes are one JSON value, white space around it
/// allowed. The answer depends on the bytes alone.
#[verifier::external_body]
pub(crate) fn is_json(bytes: &[u8]) -> (ok: bool)
    ensures
        ok == json_valid(bytes@),
{
    serde_json::from_slice::<serde_json::Value>(bytes).is_ok()
}

/// Reads the system clock through `SystemTime::now` and returns the
/// milliseconds since the Unix epoch, cut to 64 bits, or 0 if the clock stands
/// before it. Nothing is promised of the value.
#[verifier::external_body]
pub(crate) fn unix_millis() -> u64 {
    std::time::SystemTime::now().duration_since(std::time::UNIX_EPOCH).map_or(
        0,
        |d| d.as_millis() as u64,
    )
}

/// Whether a character is a lower-case hexadecimal digit.
pub open spec fn is_lower_hex(c: char) -> bool {
    ('0' <= c && c <= '9') || ('a' <= c && c <= 'f')
}

/// The hyphenated lower-case form of a UUID: 36 characters, hyphens after the
/// 8th, 12th, 16th and 20th hexadecimal digit.
pub open spec fn is_uuid_text(s: Seq<char>) -> bool {
    &&& s.len() == 36
    &&& forall|i: int|
        0 <= i < 36 ==> if i == 8 || i == 13 || i == 18 || i == 23 {
            #[trigger] s[i] == '-'
        } else {
            is_lower_hex(s[i])
        }
}

/// Calls `uuid::Uuid::new_v4` and renders the identifier with its `Display`
/// impl, which writes the hyphenated lower-case form. Which identifier comes
/// back is left open. The callee aborts if the operating system cannot supply
/// random bytes.
#[verifier::external_body]
pub(crate) fn fresh_id() -> (id: String)
    ensures
        is_uuid_text(id@),
{
    uuid::Uuid::new_v4().to_string()
}

} // verus!
