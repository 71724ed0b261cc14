//! Percent-encoding for URLs and form bodies, and the sign-in URL that the
//! browser is sent to.

use vstd::prelude::*;
use vstd::utf8::{
    decode_utf8, encode_utf8, encode_utf8_decode_utf8, encode_utf8_valid_utf8, is_ascii_chars,
    is_ascii_chars_encode_utf8, is_continuation_byte, valid_utf8,
};
use crate::text::{
    ascii_lower_char, chars_of, lower_seq, push_chars, push_decimal, push_str, seq_eq,
    trim, trim_bounds, decimal,
};
use crate::clock::opt_chars;
use crate::trusted::{push_char, string_from_utf8_lossy, utf8_lossy};

verus! {

/// Bytes that stand for themselves in a percent-encoded string.
pub open spec fn unreserved(b: u8) -> bool {
    ||| 65 <= b <= 90
    ||| 97 <= b <= 122
    ||| 48 <= b <= 57
    ||| b == 45
    ||| b == 95
    ||| b == 46
    ||| b == 126
}

/// The upper-case hex digit for a value below sixteen.
pub open spec fn hex_upper(n: nat) -> char {
    if n < 10 {
        (48 + n) as char
    } else {
        (55 + n) as char
    }
}

/// How one byte is written: itself, or `%` and two upper-case hex digits.
pub open spec fn pct_byte(b: u8) -> Seq<char> {
    if unreserved(b) {
        seq![b as char]
    } else {
        seq!['%', hex_upper((b / 16) as nat), hex_upper((b % 16) as nat)]
    }
}

/// Percent-encoding of a byte string.
pub open spec fn pct_encoded(b: Seq<u8>) -> Seq<char>
    decreases b.len(),
{
    if b.len() == 0 {
        Seq::empty()
    } else {
        pct_encoded(b.drop_last()) + pct_byte(b.last())
    }
}

fn hex_upper_char(n: u8) -> (c: char)
    requires
        n < 16,
    ensures
        c == hex_upper(n as nat),
{
    if n < 10 {
        (48u8 + n) as char
    } else {
        (55u8 + n) as char
    }
}

/// Percent-encodes the UTF-8 bytes of `value`, keeping ASCII letters, digits
/// and `- _ . ~`.
pub fn percent_encode(value: &str) -> (r: String)
    ensures
        r@ == pct_encoded(encode_utf8(value@)),
        forall|i: int| 0 <= i < r@.len() ==> query_safe(#[trigger] r@[i]),
{
    proof {
        lemma_percent_encoded_safe(encode_utf8(value@));
    }
    let bytes = value.as_bytes();
    let n = bytes.len();
    let mut out = String::new();
    for i in 0..n
        invariant
            n == bytes@.len(),
            bytes@ == encode_utf8(value@),
            out@ == pct_encoded(bytes@.take(i as int)),
    {
        let b = bytes[i];
        proof {
            assert(bytes@.take(i + 1).drop_last() =~= bytes@.take(i as int));
        }
        if (65 <= b && b <= 90) || (97 <= b && b <= 122) || (48 <= b && b <= 57) || b == 45 || b
            == 95 || b == 46 || b == 126 {
            push_char(&mut out, b as char);
        } else {
            push_char(&mut out, '%');
            push_char(&mut out, hex_upper_char(b / 16));
            push_char(&mut out, hex_upper_char(b % 16));
        }
        proof {
            assert(out@ =~= pct_encoded(bytes@.take(i + 1)));
        }
    }
    proof {
        assert(bytes@.take(n as int) =~= bytes@);
    }
    out
}

/// A character that can stand in a query value as it is: an ASCII letter or
/// digit, one of `- _ . ~`, or `%`.
pub open spec fn query_safe(c: char) -> bool {
    ||| 'A' <= c && c <= 'Z'
    ||| 'a' <= c && c <= 'z'
    ||| '0' <= c && c <= '9'
    ||| c == '-'
    ||| c == '_'
    ||| c == '.'
    ||| c == '~'
    ||| c == '%'
}

/// Percent-encoded text holds only ASCII letters and digits, `- _ . ~` and
/// `%`, so it never holds `&`, `=`, `?`, `#`, `+` or a space and can stand
/// whole in a query value.
pub proof fn lemma_percent_encoded_safe(b: Seq<u8>)
    ensures
        forall|i: int| 0 <= i < pct_encoded(b).len() ==> query_safe(#[trigger] pct_encoded(b)[i]),
    decreases b.len(),
{
    if b.len() > 0 {
        lemma_percent_encoded_safe(b.drop_last());
        let p = pct_encoded(b.drop_last());
        let q = pct_byte(b.last());
        let x = b.last();
        assert forall|k: int| 0 <= k < q.len() implies query_safe(#[trigger] q[k]) by {
            if unreserved(x) {
                assert(q[k] == x as char);
            } else if k == 0 {
                assert(q[k] == '%');
            } else {
                let n: nat = if k == 1 { (x / 16) as nat } else { (x % 16) as nat };
                assert(n < 16);
                assert(q[k] == hex_upper(n));
            }
        }
        assert forall|i: int| 0 <= i < pct_encoded(b).len() implies query_safe(#[trigger] pct_encoded(b)[i]) by {
            if i < p.len() {
                assert(pct_encoded(b)[i] == p[i]);
            } else {
                assert(pct_encoded(b)[i] == q[i - p.len()]);
            }
        }
    }
}

/// An ASCII letter or digit, or one of `- _ . ~`, as a byte.
pub open spec fn plain_byte(x: u8) -> bool {
    ||| 'A' as u8 <= x && x <= 'Z' as u8
    ||| 'a' as u8 <= x && x <= 'z' as u8
    ||| '0' as u8 <= x && x <= '9' as u8
    ||| x == '-' as u8
    ||| x == '_' as u8
    ||| x == '.' as u8
    ||| x == '~' as u8
}

/// Bytes that are all ASCII letters, digits or `- _ . ~` are written as they are.
pub proof fn lemma_percent_keeps_plain(b: Seq<u8>)
    requires
        forall|i: int| 0 <= i < b.len() ==> plain_byte(#[trigger] b[i]),
    ensures
        pct_encoded(b) == b.map_values(|x: u8| x as char),
    decreases b.len(),
{
    if b.len() > 0 {
        lemma_percent_keeps_plain(b.drop_last());
        assert(plain_byte(b[b.len() - 1]));
        assert(b.map_values(|x: u8| x as char) =~= b.drop_last().map_values(|x: u8| x as char).push(
            b.last() as char,
        ));
        assert(pct_encoded(b) =~= b.map_values(|x: u8| x as char));
    } else {
        assert(pct_encoded(b) =~= b.map_values(|x: u8| x as char));
    }
}

/// Every other byte is written as `%` and its two hex digits, upper-case,
/// high nibble first.
pub proof fn lemma_percent_escapes(b: Seq<u8>, x: u8)
    requires
        !plain_byte(x),
    ensures
        pct_encoded(b.push(x)) == pct_encoded(b) + seq!['%', "0123456789ABCDEF"@[(x / 16) as int], "0123456789ABCDEF"@[(x % 16) as int]],
{
    reveal_strlit("0123456789ABCDEF");
    assert(b.push(x).drop_last() =~= b);
    assert(hex_upper((x / 16) as nat) == "0123456789ABCDEF"@[(x / 16) as int]);
    assert(hex_upper((x % 16) as nat) == "0123456789ABCDEF"@[(x % 16) as int]);
}

/// An ASCII hex digit of either case, as a byte.
pub open spec fn is_hex(c: u8) -> bool {
    (48 <= c <= 57) || (65 <= c <= 70) || (97 <= c <= 102)
}

/// The value of an ASCII hex digit.
pub open spec fn hex_val(c: u8) -> int {
    if c <= 57 {
        c - 48
    } else if c <= 70 {
        c - 55
    } else {
        c - 87
    }
}

/// `u8::from_str_radix(_, 16)` on two bytes: two hex digits, or `+` and one.
pub open spec fn hex_pair(x: u8, y: u8) -> Option<u8> {
    if x == 43 {
        if is_hex(y) {
            Some(hex_val(y) as u8)
        } else {
            None
        }
    } else if is_hex(x) && is_hex(y) {
        Some((hex_val(x) * 16 + hex_val(y)) as u8)
    } else {
        None
    }
}

/// Percent-decoding of `b` from position `i`: `%` and a hex pair is the byte
/// they stand for, `+` is a space, anything else stands for itself.
pub open spec fn pct_decoded_from(b: Seq<u8>, i: int) -> Seq<u8>
    decreases b.len() - i,
{
    if i < 0 || i >= b.len() {
        Seq::empty()
    } else if b[i] == 37 && i + 2 < b.len() && hex_pair(b[i + 1], b[i + 2]) is Some {
        seq![hex_pair(b[i + 1], b[i + 2])->0] + pct_decoded_from(b, i + 3)
    } else if b[i] == 43 {
        seq![32u8] + pct_decoded_from(b, i + 1)
    } else {
        seq![b[i]] + pct_decoded_from(b, i + 1)
    }
}

/// The bytes that a percent-encoded string stands for.
pub open spec fn pct_decoded(b: Seq<u8>) -> Seq<u8> {
    pct_decoded_from(b, 0)
}

/// Decoding cuts the string at the byte three after each `%`; that is only
/// possible where no character is split there.
pub open spec fn pct_decodable(b: Seq<u8>) -> bool {
    forall|i: int|
        0 <= i && i + 3 < b.len() && #[trigger] b[i] == 37 ==> !is_continuation_byte(b[i + 3])
}

fn hex_val_byte(c: u8) -> (r: Option<u8>)
    ensures
        match r {
            Some(v) => is_hex(c) && v == hex_val(c),
            None => !is_hex(c),
        },
{
    if 48 <= c && c <= 57 {
        Some(c - 48)
    } else if 65 <= c && c <= 70 {
        Some(c - 55)
    } else if 97 <= c && c <= 102 {
        Some(c - 87)
    } else {
        None
    }
}

fn hex_pair_byte(x: u8, y: u8) -> (r: Option<u8>)
    ensures
        r == hex_pair(x, y),
{
    if x == 43 {
        match hex_val_byte(y) {
            Some(v) => Some(v),
            None => None,
        }
    } else {
        match (hex_val_byte(x), hex_val_byte(y)) {
            (Some(h), Some(l)) => Some(h * 16 + l),
            _ => None,
        }
    }
}

/// Percent-decodes `value` (`%XX` to a byte, `+` to a space) and reads the
/// bytes as UTF-8, replacing what is not UTF-8 with U+FFFD.
pub fn percent_decode(value: &str) -> (r: String)
    requires
        pct_decodable(encode_utf8(value@)),
    ensures
        r@ == utf8_lossy(pct_decoded(encode_utf8(value@))),
        valid_utf8(pct_decoded(encode_utf8(value@))) ==> r@ == decode_utf8(
            pct_decoded(encode_utf8(value@)),
        ),
{
    let bytes = value.as_bytes();
    let n = bytes.len();
    let mut out: Vec<u8> = Vec::new();
    let mut i: usize = 0;
    while i < n
        invariant
            n == bytes@.len(),
            i <= n,
            out@ + pct_decoded_from(bytes@, i as int) == pct_decoded(bytes@),
        decreases n - i,
    {
        let b = bytes[i];
        if b == 37 && n >= 2 && i < n - 2 {
            match hex_pair_byte(bytes[i + 1], bytes[i + 2]) {
                Some(v) => {
                    proof {
                        assert(out@ + pct_decoded_from(bytes@, i as int) =~= out@.push(v)
                            + pct_decoded_from(bytes@, i + 3));
                    }
                    out.push(v);
                    i = i + 3;
                    continue;
                },
                None => {},
            }
        }
        proof {
            if b == 43 {
                assert(out@ + pct_decoded_from(bytes@, i as int) =~= out@.push(32u8)
                    + pct_decoded_from(bytes@, i + 1));
            } else {
                assert(out@ + pct_decoded_from(bytes@, i as int) =~= out@.push(b)
                    + pct_decoded_from(bytes@, i + 1));
            }
        }
        if b == 43 {
            out.push(32u8);
        } else {
            out.push(b);
        }
        i = i + 1;
    }
    proof {
        assert(out@ =~= pct_decoded(bytes@));
    }
    string_from_utf8_lossy(out.as_slice())
}

/// The ASCII byte of an upper-case hex digit.
pub open spec fn hex_upper_byte(n: nat) -> u8 {
    if n < 10 {
        (48 + n) as u8
    } else {
        (55 + n) as u8
    }
}

/// The bytes of `pct_byte(x)`.
pub open spec fn pct_unit(x: u8) -> Seq<u8> {
    if unreserved(x) {
        seq![x]
    } else {
        seq![37u8, hex_upper_byte((x / 16) as nat), hex_upper_byte((x % 16) as nat)]
    }
}

/// The bytes of `pct_encoded(b)`.
pub open spec fn pct_bytes(b: Seq<u8>) -> Seq<u8>
    decreases b.len(),
{
    if b.len() == 0 {
        Seq::empty()
    } else {
        pct_bytes(b.drop_last()) + pct_unit(b.last())
    }
}

proof fn lemma_pct_encoded_bytes(b: Seq<u8>)
    ensures
        is_ascii_chars(pct_encoded(b)),
        encode_utf8(pct_encoded(b)) == pct_bytes(b),
    decreases b.len(),
{
    if b.len() > 0 {
        lemma_pct_encoded_bytes(b.drop_last());
        let p = pct_encoded(b.drop_last());
        let q = pct_byte(b.last());
        let x = b.last();
        assert(is_ascii_chars(q)) by {
            if !unreserved(x) {
                assert((x / 16) < 16 && (x % 16) < 16);
            }
        }
        assert(is_ascii_chars(p + q)) by {
            assert forall|i: int| 0 <= i < (p + q).len() implies '\0' <= #[trigger] (p + q)[i]
                <= '\u{7f}' by {
                if i < p.len() {
                    assert((p + q)[i] == p[i]);
                } else {
                    assert((p + q)[i] == q[i - p.len()]);
                }
            }
        }
        is_ascii_chars_encode_utf8(p + q);
        is_ascii_chars_encode_utf8(p);
        let e = encode_utf8(p + q);
        let want = pct_bytes(b);
        assert(want == pct_bytes(b.drop_last()) + pct_unit(x));
        assert forall|i: int| 0 <= i < e.len() implies e[i] == want[i] by {
            assert((p + q)[i] as u8 == e[i]);
            if i < p.len() {
                assert((p + q)[i] == p[i]);
                assert(p[i] as u8 == encode_utf8(p)[i]);
            } else {
                let k = i - p.len();
                assert((p + q)[i] == q[k]);
                if unreserved(x) {
                    assert(q[k] == x as char);
                } else if k == 0 {
                    assert(q[k] == '%');
                } else if k == 1 {
                    assert(q[k] == hex_upper((x / 16) as nat));
                } else {
                    assert(q[k] == hex_upper((x % 16) as nat));
                }
            }
        }
        assert(e =~= want);
    } else {
        assert(pct_encoded(b) =~= Seq::<char>::empty());
        assert(encode_utf8(pct_encoded(b)) =~= Seq::<u8>::empty());
    }
}

proof fn lemma_decode_shift(p: Seq<u8>, r: Seq<u8>, j: int)
    requires
        0 <= j,
    ensures
        pct_decoded_from(p + r, p.len() + j) == pct_decoded_from(r, j),
    decreases r.len() - j,
{
    let q = p + r;
    let i = p.len() + j;
    if j < r.len() {
        assert(q[i] == r[j]);
        if j + 1 < r.len() {
            assert(q[i + 1] == r[j + 1]);
        }
        lemma_decode_shift(p, r, j + 1);
        if j + 2 < r.len() {
            assert(q[i + 2] == r[j + 2]);
            lemma_decode_shift(p, r, j + 3);
        }
    }
}

proof fn lemma_decode_unit(x: u8, r: Seq<u8>)
    ensures
        pct_decoded(pct_unit(x) + r) == seq![x] + pct_decoded(r),
{
    let u = pct_unit(x);
    let q = u + r;
    lemma_decode_shift(u, r, 0);
    if unreserved(x) {
        assert(q[0] == x);
    } else {
        let h = (x / 16) as nat;
        let l = (x % 16) as nat;
        assert(q[0] == 37u8 && q[1] == hex_upper_byte(h) && q[2] == hex_upper_byte(l));
        assert(hex_pair(q[1], q[2]) == Some(x));
    }
}

proof fn lemma_decode_bytes(b: Seq<u8>, r: Seq<u8>)
    ensures
        pct_decoded(pct_bytes(b) + r) == b + pct_decoded(r),
    decreases b.len(),
{
    if b.len() == 0 {
        assert(pct_bytes(b) + r =~= r);
        assert(b + pct_decoded(r) =~= pct_decoded(r));
    } else {
        let d = b.drop_last();
        let x = b.last();
        assert(pct_bytes(b) + r =~= pct_bytes(d) + (pct_unit(x) + r));
        lemma_decode_bytes(d, pct_unit(x) + r);
        lemma_decode_unit(x, r);
        assert(d + (seq![x] + pct_decoded(r)) =~= b + pct_decoded(r));
    }
}

/// Decoding what `percent_encode` wrote gives back the text it was given, and the
/// decoder can take every such string.
pub proof fn lemma_percent_roundtrip(s: Seq<char>)
    ensures
        pct_decodable(encode_utf8(pct_encoded(encode_utf8(s)))),
        valid_utf8(pct_decoded(encode_utf8(pct_encoded(encode_utf8(s))))),
        decode_utf8(pct_decoded(encode_utf8(pct_encoded(encode_utf8(s))))) == s,
{
    let b = encode_utf8(s);
    lemma_pct_encoded_bytes(b);
    let e = encode_utf8(pct_encoded(b));
    is_ascii_chars_encode_utf8(pct_encoded(b));
    assert forall|i: int| 0 <= i && i + 3 < e.len() && #[trigger] e[i] == 37 implies !is_continuation_byte(
        e[i + 3],
    ) by {
        assert(pct_encoded(b)[i + 3] as u8 == e[i + 3]);
    }
    lemma_decode_bytes(b, Seq::empty());
    assert(pct_bytes(b) + Seq::<u8>::empty() =~= pct_bytes(b));
    assert(pct_decoded(Seq::<u8>::empty()) =~= Seq::<u8>::empty());
    assert(b + Seq::<u8>::empty() =~= b);
    encode_utf8_valid_utf8(s);
    encode_utf8_decode_utf8(s);
}

/// Where ThermalTrace serves its API.
pub const API_BASE: &'static str = "https://thermaltrace.dev";

/// The loopback address the browser returns to after sign-in.
pub open spec fn loopback_url(port: u16) -> Seq<char> {
    "http://127.0.0.1:"@ + decimal(port as nat) + "/oauth"@
}

/// Sign-in providers the companion flow can be pointed at.
pub open spec fn known_provider(p: Seq<char>) -> bool {
    p == "google"@ || p == "github"@ || p == "discord"@
}

/// The `&provider=` part of the sign-in URL, if any.
pub open spec fn provider_suffix(provider: Option<Seq<char>>) -> Seq<char> {
    match provider {
        Some(p) => if known_provider(lower_seq(trim(p))) {
            "&provider="@ + lower_seq(trim(p))
        } else {
            Seq::empty()
        },
        None => Seq::empty(),
    }
}

/// The URL that starts companion sign-in on ThermalTrace.
pub open spec fn start_url(port: u16, provider: Option<Seq<char>>) -> Seq<char> {
    API_BASE@ + "/api/auth/companion/start?client=baybuddy&loopback="@ + pct_encoded(
        encode_utf8(loopback_url(port)),
    ) + provider_suffix(provider)
}

/// Each of the three sign-in providers is passed on by its name, and a choice
/// that is none of them (such as `email`) passes no provider on.
pub proof fn lemma_providers_passed_on(port: u16)
    ensures
        start_url(port, Some("google"@)) == start_url(port, None) + "&provider=google"@,
        start_url(port, Some("github"@)) == start_url(port, None) + "&provider=github"@,
        start_url(port, Some("discord"@)) == start_url(port, None) + "&provider=discord"@,
        start_url(port, Some("email"@)) == start_url(port, None),
{
    reveal_strlit("google");
    reveal_strlit("github");
    reveal_strlit("discord");
    reveal_strlit("email");
    lemma_plain_name("google"@);
    lemma_plain_name("github"@);
    lemma_plain_name("discord"@);
    lemma_plain_name("email"@);
    assert(start_url(port, None) + Seq::<char>::empty() =~= start_url(port, None));
    reveal_strlit("&provider=");
    reveal_strlit("&provider=google");
    reveal_strlit("&provider=github");
    reveal_strlit("&provider=discord");
    assert("&provider="@ + "google"@ =~= "&provider=google"@);
    assert("&provider="@ + "github"@ =~= "&provider=github"@);
    assert("&provider="@ + "discord"@ =~= "&provider=discord"@);
}

/// A provider typed in any ASCII case and with whitespace around it is passed
/// on by its lower-case name.
pub proof fn lemma_provider_case_and_spaces(port: u16, a: Seq<char>, q: Seq<char>, b: Seq<char>)
    requires
        crate::text::all_ws(a),
        crate::text::all_ws(b),
        lower_seq(q) == "google"@ || lower_seq(q) == "github"@ || lower_seq(q) == "discord"@,
    ensures
        start_url(port, Some(a + q + b)) == start_url(port, None) + "&provider="@ + lower_seq(q),
{
    reveal_strlit("google");
    reveal_strlit("github");
    reveal_strlit("discord");
    let l = lower_seq(q);
    assert(l.len() == q.len());
    assert("google"@.len() == 6 && "github"@.len() == 6 && "discord"@.len() == 7);
    assert(q.len() > 0);
    assert forall|i: int| 0 <= i < l.len() implies 'a' <= #[trigger] l[i] <= 'z' by {
        if l == "google"@ {
            assert(l[i] == "google"@[i]);
        } else if l == "github"@ {
            assert(l[i] == "github"@[i]);
        } else {
            assert(l[i] == "discord"@[i]);
        }
    }
    assert forall|i: int| 0 <= i < q.len() implies !crate::text::is_ws(#[trigger] q[i]) by {
        assert(l[i] == crate::text::ascii_lower(q[i]));
        assert('a' <= l[i] <= 'z');
    }
    let s = a + q + b;
    assert forall|j: int| 0 <= j < a.len() implies crate::text::is_ws(#[trigger] s[j]) by {
        assert(s[j] == a[j]);
    }
    assert(s[a.len() as int] == q[0]);
    crate::text::lemma_lead_ws(s, a.len() as int);
    let t = s.skip(a.len() as int);
    assert(t =~= q + b);
    assert forall|j: int| t.len() - b.len() <= j < t.len() implies crate::text::is_ws(#[trigger] t[j]) by {
        assert(t[j] == b[j - q.len()]);
    }
    assert(t[t.len() - 1 - b.len()] == q[q.len() - 1]);
    crate::text::lemma_trail_ws(t, b.len() as int);
    assert(trim(s) =~= q);
}

proof fn lemma_plain_name(p: Seq<char>)
    requires
        p.len() > 0,
        forall|i: int| 0 <= i < p.len() ==> 'a' <= #[trigger] p[i] && p[i] <= 'z',
    ensures
        lower_seq(trim(p)) == p,
{
    assert(!crate::text::is_ws(p[0]) && !crate::text::is_ws(p.last())) by {
        assert('a' <= p[0] <= 'z');
        assert('a' <= p[p.len() - 1] <= 'z');
    }
    crate::text::lemma_trim_id(p);
    assert(lower_seq(p) =~= p);
}

/// The sign-in URL for a loopback listener on `port`. A provider is passed on
/// only when, trimmed and lower-cased, it is `google`, `github` or `discord`.
/// ASCII lower-casing decides this as full Unicode lower-casing would: the
/// only non-ASCII character that lower-cases to a lone ASCII letter is KELVIN
/// SIGN (to `k`), which none of the three names holds.
pub fn companion_start_url(port: u16, provider: Option<&str>) -> (r: String)
    ensures
        r@ == start_url(port, opt_chars(provider)),
{
    let mut loopback = String::new();
    push_str(&mut loopback, "http://127.0.0.1:");
    push_decimal(&mut loopback, port as u128);
    push_str(&mut loopback, "/oauth");
    let mut url = String::new();
    push_str(&mut url, API_BASE);
    push_str(&mut url, "/api/auth/companion/start?client=baybuddy&loopback=");
    let enc = percent_encode(loopback.as_str());
    push_str(&mut url, enc.as_str());
    proof {
        assert(loopback@ =~= loopback_url(port));
    }
    let ghost before = url@;
    match provider {
        Some(p) => {
            let chars = chars_of(p);
            let (a, b) = trim_bounds(&chars);
            let mut low: Vec<char> = Vec::new();
            let mut i = a;
            while i < b
                invariant
                    a <= i <= b <= chars.len(),
                    low@ == lower_seq(chars@.subrange(a as int, i as int)),
                decreases b - i,
            {
                low.push(ascii_lower_char(chars[i]));
                proof {
                    assert(lower_seq(chars@.subrange(a as int, i + 1)) =~= lower_seq(
                        chars@.subrange(a as int, i as int),
                    ).push(crate::text::ascii_lower(chars@[i as int])));
                }
                i = i + 1;
            }
            if seq_eq(&low, &chars_of("google")) || seq_eq(&low, &chars_of("github")) || seq_eq(
                &low,
                &chars_of("discord"),
            ) {
                push_str(&mut url, "&provider=");
                push_chars(&mut url, &low);
            }
        },
        None => {},
    }
    proof {
        assert(url@ =~= start_url(port, opt_chars(provider)));
    }
    url
}

} // verus!
