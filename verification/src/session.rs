//! The signed-in session and how ThermalTrace's answers to API calls are
//! judged.

use vstd::prelude::*;
use crate::puck::byte_len;
use crate::text::{chars_of, contains_seq, decimal, has_infix, push_chars, push_decimal, push_str, slice_vec, utf8_len};

verus! {

/// The tokens of a ThermalTrace session.
pub struct SessionTokens {
    pub access_token: String,
    pub refresh_token: String,
}

/// API calls are refused before they are sent when either token is empty.
pub fn check_tokens(tokens: &SessionTokens) -> (r: Result<(), String>)
    ensures
        (tokens.access_token@.len() == 0 || tokens.refresh_token@.len() == 0) ==> (r matches Err(
            e,
        ) && e@ == "Missing session tokens after exchange"@),
        !(tokens.access_token@.len() == 0 || tokens.refresh_token@.len() == 0) ==> r is Ok,
{
    if tokens.access_token.as_str().is_empty() || tokens.refresh_token.as_str().is_empty() {
        return Err(String::from_str("Missing session tokens after exchange"));
    }
    Ok(())
}

/// The `Authorization` header for a session.
pub fn bearer_header(tokens: &SessionTokens) -> (r: String)
    ensures
        r@ == "Bearer "@ + tokens.access_token@,
{
    let mut out = String::new();
    push_str(&mut out, "Bearer ");
    push_str(&mut out, tokens.access_token.as_str());
    out
}

/// A successful HTTP status (2xx).
pub open spec fn is_success(status: u16) -> bool {
    200 <= status < 300
}

pub fn status_ok(status: u16) -> (b: bool)
    ensures
        b == is_success(status),
{
    200 <= status && status < 300
}

/// The longest part of a refused call's body that goes into the error.
pub const BODY_EXCERPT: usize = 180;

/// The error for an API answer that is not a success.
pub open spec fn api_error_text(status: u16, body: Seq<char>, access: Seq<char>, refresh: Seq<char>) -> Seq<char> {
    if status == 401 {
        if contains_seq(body, "MFA required"@) {
            "MFA required — finish MFA in the browser on thermaltrace.dev, then connect again"@
        } else {
            "Session rejected by ThermalTrace (HTTP 401). access_len="@ + decimal(byte_len(access))
                + " refresh_len="@ + decimal(byte_len(refresh)) + " body="@ + (if body.len()
                <= BODY_EXCERPT {
                body
            } else {
                body.take(BODY_EXCERPT as int)
            })
        }
    } else {
        "API error HTTP "@ + decimal(status as nat) + ": "@ + body
    }
}

/// The error for an API answer with status `status` (not a success) and body
/// `body`: on 401 a hint to finish MFA, or the token lengths and the first 180
/// characters of the body; otherwise the status and the body.
pub fn api_error(status: u16, body: &str, tokens: &SessionTokens) -> (r: String)
    requires
        !is_success(status),
    ensures
        r@ == api_error_text(status, body@, tokens.access_token@, tokens.refresh_token@),
{
    let b = chars_of(body);
    let mut out = String::new();
    if status == 401 {
        if has_infix(&b, &chars_of("MFA required")) {
            return String::from_str(
                "MFA required — finish MFA in the browser on thermaltrace.dev, then connect again",
            );
        }
        push_str(&mut out, "Session rejected by ThermalTrace (HTTP 401). access_len=");
        push_decimal(&mut out, utf8_len(&chars_of(tokens.access_token.as_str())));
        push_str(&mut out, " refresh_len=");
        push_decimal(&mut out, utf8_len(&chars_of(tokens.refresh_token.as_str())));
        push_str(&mut out, " body=");
        let cut = if b.len() <= BODY_EXCERPT {
            b.len()
        } else {
            BODY_EXCERPT
        };
        let excerpt = slice_vec(&b, 0, cut);
        push_chars(&mut out, &excerpt);
        proof {
            if b@.len() <= BODY_EXCERPT {
                assert(excerpt@ =~= b@);
            } else {
                assert(excerpt@ =~= b@.take(BODY_EXCERPT as int));
            }
            assert(out@ =~= api_error_text(status, body@, tokens.access_token@, tokens.refresh_token@));
        }
        return out;
    }
    push_str(&mut out, "API error HTTP ");
    push_decimal(&mut out, status as u128);
    push_str(&mut out, ": ");
    push_chars(&mut out, &b);
    proof {
        assert(out@ =~= api_error_text(status, body@, tokens.access_token@, tokens.refresh_token@));
    }
    out
}

/// The error when the sign-in exchange is refused.
pub fn exchange_error(body: &str) -> (r: String)
    ensures
        r@ == "exchange failed: "@ + body@,
{
    let mut out = String::new();
    push_str(&mut out, "exchange failed: ");
    push_str(&mut out, body);
    out
}

} // verus!
