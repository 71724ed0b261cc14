//! The puck's shared secret: making one, and computing the answer the puck
//! must give to a challenge (HMAC-SHA256 over hex-encoded inputs).

use vstd::prelude::*;
use vstd::utf8::encode_utf8;
use crate::text::decimal;
use crate::trusted::{char_debug, fill_random, hex_decode, hex_encode, hmac_sha256, hmac_sha256_bytes};

verus! {

/// The lower-case hex digit for a value below sixteen.
pub open spec fn hex_digit(n: nat) -> char {
    if n < 10 {
        (48 + n) as char
    } else {
        (87 + n) as char
    }
}

/// Bytes written as lower-case hex, two digits per byte, high nibble first.
pub open spec fn hex_lower(b: Seq<u8>) -> Seq<char>
    decreases b.len(),
{
    if b.len() == 0 {
        Seq::empty()
    } else {
        seq![hex_digit((b[0] / 16) as nat), hex_digit((b[0] % 16) as nat)] + hex_lower(
            b.drop_first(),
        )
    }
}

/// An ASCII hex digit of either case, as a byte.
pub open spec fn is_hex_byte(c: u8) -> bool {
    (48 <= c <= 57) || (65 <= c <= 70) || (97 <= c <= 102)
}

/// The value of an ASCII hex digit.
pub open spec fn hex_byte_value(c: u8) -> int {
    if c <= 57 {
        c - 48
    } else if c <= 70 {
        c - 55
    } else {
        c - 87
    }
}

/// Text that `hex::decode` accepts: an even number of bytes, all hex digits.
pub open spec fn hex_valid(b: Seq<u8>) -> bool {
    b.len() % 2 == 0 && forall|i: int| 0 <= i < b.len() ==> is_hex_byte(#[trigger] b[i])
}

/// The bytes that valid hex text stands for.
pub open spec fn hex_decoded(b: Seq<u8>) -> Seq<u8> {
    Seq::new(
        b.len() / 2,
        |i: int| (hex_byte_value(b[2 * i]) * 16 + hex_byte_value(b[2 * i + 1])) as u8,
    )
}

/// The position of the first byte that is not a hex digit (the length when
/// there is none).
pub open spec fn first_bad_hex(b: Seq<u8>) -> int
    decreases b.len(),
{
    if b.len() == 0 {
        0
    } else if !is_hex_byte(b[0]) {
        0
    } else {
        1 + first_bad_hex(b.drop_first())
    }
}

/// The error text of `hex::decode` for bytes it refuses.
pub open spec fn hex_error_text(b: Seq<u8>) -> Seq<char> {
    if b.len() % 2 != 0 {
        "Odd number of digits"@
    } else {
        let i = first_bad_hex(b);
        "Invalid character "@ + char_debug(b[i] as char) + " at position "@ + decimal(i as nat)
    }
}

/// Printable ASCII that `{:?}` writes as itself between single quotes.
pub open spec fn plain_ascii(c: u8) -> bool {
    0x20 <= c <= 0x7E && c != 0x27 && c != 0x5C
}

/// The refused bytes have an even length and their first non-hex byte is
/// plain printable ASCII.
pub open spec fn plain_bad_hex(b: Seq<u8>) -> bool {
    b.len() % 2 == 0 && 0 <= first_bad_hex(b) < b.len() && plain_ascii(b[first_bad_hex(b)])
}

/// `hex_error_text` when the bad byte is plain printable ASCII.
pub open spec fn plain_hex_error_text(b: Seq<u8>) -> Seq<char> {
    let i = first_bad_hex(b);
    "Invalid character '"@ + seq![b[i] as char] + "' at position "@ + decimal(i as nat)
}

/// What `hex::decode` gives for a string.
pub open spec fn hex_decode_result(text: Seq<char>) -> Result<Seq<u8>, Seq<char>> {
    let b = encode_utf8(text);
    if hex_valid(b) {
        Ok(hex_decoded(b))
    } else {
        Err(hex_error_text(b))
    }
}

/// A secret as the library makes them: 32 bytes written as lower-case hex.
pub open spec fn is_secret_hex(s: Seq<char>) -> bool {
    exists|b: Seq<u8>| b.len() == 32 && s == hex_lower(b)
}

/// Hex text is twice as long as the bytes it writes.
pub proof fn lemma_hex_lower_len(b: Seq<u8>)
    ensures
        hex_lower(b).len() == 2 * b.len(),
    decreases b.len(),
{
    if b.len() > 0 {
        lemma_hex_lower_len(b.drop_first());
    }
}

/// A fresh random secret: 32 random bytes as 64 lower-case hex digits.
pub fn random_secret_hex() -> (s: String)
    ensures
        is_secret_hex(s@),
        s@.len() == 64,
{
    let mut bytes: Vec<u8> = vec![0u8; 32];
    fill_random(&mut bytes);
    let s = hex_encode(bytes.as_slice());
    proof {
        lemma_hex_lower_len(bytes@);
    }
    s
}

/// What the puck must answer to the challenge `nonce_hex` when it holds
/// `secret_hex`: HMAC-SHA256 keyed by the secret's bytes over the nonce's
/// bytes, in lower-case hex; or the error of the first input that is not hex.
pub open spec fn hmac_hex_result(secret_hex: Seq<char>, nonce_hex: Seq<char>) -> Result<
    Seq<char>,
    Seq<char>,
> {
    match hex_decode_result(secret_hex) {
        Err(e) => Err(e),
        Ok(key) => match hex_decode_result(nonce_hex) {
            Err(e) => Err(e),
            Ok(msg) => Ok(hex_lower(hmac_sha256(key, msg))),
        },
    }
}

/// The expected answer to a challenge, as `hmac_hex_result` describes it:
/// 64 lower-case hex digits when both inputs are hex.
pub fn hmac_hex(secret_hex: &str, nonce_hex: &str) -> (r: Result<String, String>)
    ensures
        match (r, hmac_hex_result(secret_hex@, nonce_hex@)) {
            (Ok(s), Ok(t)) => s@ == t,
            (Err(e), Err(t)) => e@ == t,
            _ => false,
        },
        r matches Ok(s) ==> s@.len() == 64,
{
    let secret = match hex_decode(secret_hex) {
        Ok(v) => v,
        Err(e) => return Err(e),
    };
    let nonce = match hex_decode(nonce_hex) {
        Ok(v) => v,
        Err(e) => return Err(e),
    };
    let mac = match hmac_sha256_bytes(secret.as_slice(), nonce.as_slice()) {
        Ok(m) => m,
        Err(e) => return Err(e),
    };
    proof {
        lemma_hex_lower_len(mac@);
    }
    Ok(hex_encode(mac.as_slice()))
}

} // verus!
