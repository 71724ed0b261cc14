//! Calls into std and outside crates whose contracts Verus takes on trust.

use hmac::Mac;
use rand::RngCore;
use vstd::prelude::*;
use crate::text::decimal;
use crate::secret::{first_bad_hex, hex_decoded, hex_error_text, hex_lower, hex_valid, plain_bad_hex, plain_hex_error_text};
use vstd::utf8::{decode_utf8, encode_utf8, valid_utf8};

verus! {

/// `String::push`: appends one character to the string.
#[verifier::external_body]
pub(crate) fn push_char(s: &mut String, c: char)
    ensures
        final(s)@ == old(s)@.push(c),
{
    s.push(c);
}

/// Names the text that `String::from_utf8_lossy` makes of these bytes.
pub uninterp spec fn utf8_lossy(bytes: Seq<u8>) -> Seq<char>;

/// `String::from_utf8_lossy`: decodes UTF-8, putting U+FFFD where the bytes
/// are not UTF-8. Claimed: the result is named by `utf8_lossy`, and bytes that
/// are valid UTF-8 decode to exactly their characters.
#[verifier::external_body]
pub(crate) fn string_from_utf8_lossy(bytes: &[u8]) -> (s: String)
    ensures
        s@ == utf8_lossy(bytes@),
        valid_utf8(bytes@) ==> s@ == decode_utf8(bytes@),
{
    String::from_utf8_lossy(bytes).into_owned()
}

/// `rand::thread_rng().fill_bytes`: overwrites the buffer with random bytes.
/// Claimed: only that the length stays; the bytes are whatever the generator gave.
#[verifier::external_body]
pub(crate) fn fill_random(dest: &mut Vec<u8>)
    ensures
        final(dest)@.len() == old(dest)@.len(),
{
    rand::thread_rng().fill_bytes(dest.as_mut_slice());
}

/// `hex::encode`: each byte as two lower-case hex digits, high nibble first.
#[verifier::external_body]
pub(crate) fn hex_encode(data: &[u8]) -> (s: String)
    ensures
        s@ == hex_lower(data@),
{
    hex::encode(data)
}

/// Names how `{:?}` writes a character (quoted, with escapes).
pub uninterp spec fn char_debug(c: char) -> Seq<char>;

/// `hex::decode`, with its error turned into text (its `Display` form):
/// succeeds exactly when the string's bytes are an even number of hex digits
/// of either case, and then gives the bytes they stand for. An odd length
/// reports "Odd number of digits"; otherwise the first byte that is not a hex
/// digit is reported, as a character, with its position. How `{:?}` writes
/// that character is only named, except for printable ASCII other than a
/// quote or a backslash, which it writes between single quotes.
#[verifier::external_body]
pub(crate) fn hex_decode(text: &str) -> (r: Result<Vec<u8>, String>)
    ensures
        match r {
            Ok(v) => hex_valid(encode_utf8(text@)) && v@ == hex_decoded(encode_utf8(text@)),
            Err(m) => !hex_valid(encode_utf8(text@)) && m@ == hex_error_text(encode_utf8(text@))
                && (encode_utf8(text@).len() % 2 == 0 ==> m@ == "Invalid character "@ + char_debug(
                encode_utf8(text@)[first_bad_hex(encode_utf8(text@))] as char,
            ) + " at position "@ + decimal(first_bad_hex(encode_utf8(text@)) as nat)),
        },
        match r {
            Ok(_) => true,
            Err(m) => plain_bad_hex(encode_utf8(text@)) ==> m@ == plain_hex_error_text(
                encode_utf8(text@),
            ),
        },
{
    hex::decode(text).map_err(|e| e.to_string())
}

/// Names HMAC-SHA256 of `msg` under `key`.
pub uninterp spec fn hmac_sha256(key: Seq<u8>, msg: Seq<u8>) -> Seq<u8>;

/// `Hmac::<Sha256>::new_from_slice`, `update`, `finalize`: the 32-byte
/// HMAC-SHA256 tag. Claimed: it succeeds for every key (the crate hashes long
/// keys and pads short ones) and the tag is named by `hmac_sha256`.
#[verifier::external_body]
pub(crate) fn hmac_sha256_bytes(key: &[u8], msg: &[u8]) -> (r: Result<Vec<u8>, String>)
    ensures
        match r {
            Ok(v) => v@ == hmac_sha256(key@, msg@) && v@.len() == 32,
            Err(_) => false,
        },
{
    let mut mac = match hmac::Hmac::<sha2::Sha256>::new_from_slice(key) {
        Ok(m) => m,
        Err(e) => return Err(format!("hmac key: {e}")),
    };
    mac.update(msg);
    Ok(mac.finalize().into_bytes().to_vec())
}

/// `SystemTime::now().duration_since(UNIX_EPOCH)`, in whole seconds; `None`
/// when the clock reads before 1970. Nothing is claimed of the value: it is
/// whatever the clock says.
#[verifier::external_body]
pub(crate) fn unix_now() -> Option<u64> {
    std::time::SystemTime::now().duration_since(std::time::UNIX_EPOCH).ok().map(|d| d.as_secs())
}

} // verus!
