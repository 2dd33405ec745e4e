//! The device identity: a stable token that keys the remote mirror's aggregates.

use vstd::prelude::*;

verus! {

/// Length of a hyphenated UUID.
pub const DEVICE_ID_LEN: usize = 36;

/// A lowercase hexadecimal digit.
pub open spec fn is_lower_hex(c: char) -> bool {
    ('0' <= c && c <= '9') || ('a' <= c && c <= 'f')
}

/// The hyphenated text of a random (version 4, RFC 4122 variant) UUID: 36 characters, `-` at
/// positions 8, 13, 18 and 23 and lowercase hexadecimal digits elsewhere, the version digit `4`
/// at position 14 and a variant digit among `8`, `9`, `a`, `b` at position 19.
pub open spec fn is_hyphenated_uuid_v4(s: Seq<char>) -> bool {
    &&& s.len() == DEVICE_ID_LEN
    &&& forall|i: int|
        0 <= i < s.len() ==> if i == 8 || i == 13 || i == 18 || i == 23 {
            s[i] == '-'
        } else {
            is_lower_hex(#[trigger] s[i])
        }
    &&& s[14] == '4'
    &&& (s[19] == '8' || s[19] == '9' || s[19] == 'a' || s[19] == 'b')
}

/// The text of the random UUID built from 16 random bytes.
pub uninterp spec fn v4_text_of(random: Seq<u8>) -> Seq<char>;

/// Relies on `uuid::Builder::from_random_bytes`, which keeps the bytes but for the version
/// nibble (set to 4) and the variant bits (set to RFC 4122), on `Builder::into_uuid`, and on
/// the `Display` of `Uuid`, which writes the lowercase hyphenated form
/// (`uuid::fmt::Hyphenated`, 36 characters). The text depends on the bytes alone.
#[verifier::external_body]
fn v4_token(random: [u8; 16]) -> (r: String)
    ensures
        r@ == v4_text_of(random@),
        is_hyphenated_uuid_v4(r@),
{
    uuid::Builder::from_random_bytes(random).into_uuid().to_string()
}

/// The device identity, given what is stored and 16 freshly drawn random bytes: the stored
/// token when there is one, else the random UUID built from the bytes. The flag says whether
/// the token was generated and must be stored.
pub fn get_or_create_device_id(stored: Option<String>, random: [u8; 16]) -> (r: (String, bool))
    ensures
        stored matches Some(s) ==> r.0 == s && !r.1,
        stored is None ==> r.1 && r.0@ == v4_text_of(random@) && is_hyphenated_uuid_v4(r.0@),
{
    match stored {
        Some(s) => (s, false),
        None => (v4_token(random), true),
    }
}

} // verus!
