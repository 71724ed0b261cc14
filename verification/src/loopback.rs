//! The browser's return to the loopback listener after sign-in: when the
//! HTTP request has fully arrived, where the exchange token sits in it, and
//! the page sent back.

use vstd::prelude::*;
use vstd::utf8::encode_utf8;
use crate::puck::{byte_len, opt_view};
use crate::text::{
    ascii_lower, ascii_lower_char, digits_upto, digits_value, is_digit, chars_of, find_char, find_first, find_seq, find_sub,
    lower_seq, push_decimal, push_str, seq_eq, slice_vec, split_chars, split_on, split_ws,
    starts_with, has_prefix, string_of, trim, trim_bounds, utf8_len, views, words, decimal,
};
use crate::trusted::utf8_lossy;
use crate::url::{pct_decodable, pct_decoded, percent_decode};

verus! {

// ------------------------------------------------------------- request parts

/// Header block and body of a request: split at the first blank line
/// (`\r\n\r\n`, or else `\n\n`); without one, all of it is header.
pub open spec fn head_body(req: Seq<char>) -> (Seq<char>, Seq<char>) {
    match find_sub(req, "\r\n\r\n"@) {
        Some(k) => (req.take(k), req.skip(k + 4)),
        None => match find_sub(req, "\n\n"@) {
            Some(k) => (req.take(k), req.skip(k + 2)),
            None => (req, Seq::empty()),
        },
    }
}

/// A line without the `\r` of a `\r\n` ending.
pub open spec fn strip_cr(l: Seq<char>) -> Seq<char> {
    if l.len() > 0 && l.last() == '\r' {
        l.drop_last()
    } else {
        l
    }
}

/// `str::lines`: pieces ended by `\n` (with a `\r` before it dropped), and a
/// last unterminated piece if it is not empty.
pub open spec fn lines(s: Seq<char>) -> Seq<Seq<char>> {
    let segs = split_on(s, '\n');
    let n = segs.len();
    let kept: int = if segs[n - 1].len() == 0 {
        n - 1
    } else {
        n as int
    };
    Seq::new(
        kept as nat,
        |i: int|
            if i < n - 1 {
                strip_cr(segs[i])
            } else {
                segs[i]
            },
    )
}

/// The first line of `s`, if `s` is not empty.
pub open spec fn first_line(s: Seq<char>) -> Option<Seq<char>> {
    if s.len() == 0 {
        None
    } else {
        Some(lines(s)[0])
    }
}

/// `path.split('?').nth(1)`: the text after the first `?`, up to the next.
pub open spec fn query_part(path: Seq<char>) -> Option<Seq<char>> {
    match find_first(path, '?') {
        Some(k) => {
            let rest = path.skip(k + 1);
            match find_first(rest, '?') {
                Some(j) => Some(rest.take(j)),
                None => Some(rest),
            }
        },
        None => None,
    }
}

/// The key of a `key=value` pair (all of it when there is no `=`).
pub open spec fn pair_key(pair: Seq<char>) -> Seq<char> {
    match find_first(pair, '=') {
        Some(k) => pair.take(k),
        None => pair,
    }
}

/// The value of a `key=value` pair (empty when there is no `=`).
pub open spec fn pair_value(pair: Seq<char>) -> Seq<char> {
    match find_first(pair, '=') {
        Some(k) => pair.skip(k + 1),
        None => Seq::empty(),
    }
}

/// The value of the first pair whose key is `exchange`.
pub open spec fn exchange_in(pairs: Seq<Seq<char>>) -> Option<Seq<char>>
    decreases pairs.len(),
{
    if pairs.len() == 0 {
        None
    } else if pair_key(pairs[0]) == "exchange"@ {
        Some(pair_value(pairs[0]))
    } else {
        exchange_in(pairs.drop_first())
    }
}

/// The still-encoded exchange token of a request: from the query string of the
/// request line, or else from a form body (trimmed).
pub open spec fn raw_exchange(req: Seq<char>) -> Option<Seq<char>> {
    let (head, body) = head_body(req);
    match first_line(head) {
        None => None,
        Some(first) => {
            let w = words(first);
            if w.len() < 2 {
                None
            } else {
                let from_query = match query_part(w[1]) {
                    Some(q) => exchange_in(split_on(q, '&')),
                    None => None,
                };
                match from_query {
                    Some(v) => Some(v),
                    None => match exchange_in(split_on(body, '&')) {
                        Some(v) => Some(trim(v)),
                        None => None,
                    },
                }
            }
        },
    }
}

/// The decoded exchange token of a request.
pub open spec fn exchange_token_of(req: Seq<char>) -> Option<Seq<char>> {
    match raw_exchange(req) {
        Some(v) => Some(utf8_lossy(pct_decoded(encode_utf8(v)))),
        None => None,
    }
}

/// Whether the exchange token of a request can be decoded (see `pct_decodable`).
pub open spec fn exchange_decodable(req: Seq<char>) -> bool {
    match raw_exchange(req) {
        Some(v) => pct_decodable(encode_utf8(v)),
        None => true,
    }
}

fn head_and_body(req: &Vec<char>) -> (r: (Vec<char>, Vec<char>))
    ensures
        (r.0@, r.1@) == head_body(req@),
{
    let crlf = chars_of("\r\n\r\n");
    proof {
        reveal_strlit("\r\n\r\n");
        reveal_strlit("\n\n");
    }
    match find_seq(req, &crlf) {
        Some(k) => {
            let h = slice_vec(req, 0, k);
            let b = slice_vec(req, k + 4, req.len());
            proof {
                assert(h@ =~= req@.take(k as int));
                assert(b@ =~= req@.skip(k + 4));
            }
            (h, b)
        },
        None => {
            let lf = chars_of("\n\n");
            assert(lf@.len() == 2);
            match find_seq(req, &lf) {
                Some(k) => {
                    let h = slice_vec(req, 0, k);
                    let b = slice_vec(req, k + 2, req.len());
                    proof {
                        assert(h@ =~= req@.take(k as int));
                        assert(b@ =~= req@.skip(k + 2));
                    }
                    (h, b)
                },
                None => (slice_vec(req, 0, req.len()), Vec::new()),
            }
        },
    }
}

fn lines_of(s: &Vec<char>) -> (r: Vec<Vec<char>>)
    ensures
        views(r@) == lines(s@),
{
    let segs = split_chars(s, '\n');
    let n = segs.len();
    assert(segs@.len() == views(segs@).len());
    let kept = if segs[n - 1].len() == 0 {
        n - 1
    } else {
        n
    };
    let mut out: Vec<Vec<char>> = Vec::new();
    assert(lines(s@).len() == kept);
    for i in 0..kept
        invariant
            n == segs.len(),
            n >= 1,
            kept <= n,
            kept == (if views(segs@)[n - 1].len() == 0 {
                n - 1
            } else {
                n as int
            }),
            views(segs@) == split_on(s@, '\n'),
            views(out@) == lines(s@).take(i as int),
    {
        let seg = &segs[i];
        assert(views(segs@)[i as int] == seg@);
        if i < n - 1 && seg.len() > 0 && seg[seg.len() - 1] == '\r' {
            let t = slice_vec(seg, 0, seg.len() - 1);
            assert(t@ =~= seg@.drop_last());
            assert(lines(s@)[i as int] == t@);
            out.push(t);
        } else {
            let t = slice_vec(seg, 0, seg.len());
            assert(t@ =~= seg@);
            assert(lines(s@)[i as int] == t@);
            out.push(t);
        }
        proof {
            assert(lines(s@).take(i + 1) =~= lines(s@).take(i as int).push(lines(s@)[i as int]));
            assert(views(out@) =~= lines(s@).take(i + 1));
        }
    }
    proof {
        assert(lines(s@).take(kept as int) =~= lines(s@));
    }
    out
}

fn query_of(path: &Vec<char>) -> (r: Option<Vec<char>>)
    ensures
        match (r, query_part(path@)) {
            (Some(q), Some(t)) => q@ == t,
            (None, None) => true,
            _ => false,
        },
{
    match find_char(path, '?') {
        Some(k) => {
            let rest = slice_vec(path, k + 1, path.len());
            assert(rest@ =~= path@.skip(k + 1));
            match find_char(&rest, '?') {
                Some(j) => {
                    let q = slice_vec(&rest, 0, j);
                    assert(q@ =~= rest@.take(j as int));
                    Some(q)
                },
                None => Some(rest),
            }
        },
        None => None,
    }
}

proof fn lemma_exchange_skip(ps: Seq<Seq<char>>, i: int)
    requires
        0 <= i <= ps.len(),
        forall|j: int| 0 <= j < i ==> pair_key(#[trigger] ps[j]) != "exchange"@,
    ensures
        exchange_in(ps) == exchange_in(ps.skip(i)),
    decreases i,
{
    assert(ps.skip(0) =~= ps);
    if i > 0 {
        let t = ps.drop_first();
        assert forall|j: int| 0 <= j < i - 1 implies pair_key(#[trigger] t[j]) != "exchange"@ by {
            assert(t[j] == ps[j + 1]);
        }
        lemma_exchange_skip(t, i - 1);
        assert(t.skip(i - 1) =~= ps.skip(i));
        assert(pair_key(ps[0]) != "exchange"@);
    }
}

fn exchange_pair(pairs: &Vec<Vec<char>>) -> (r: Option<Vec<char>>)
    ensures
        match (r, exchange_in(views(pairs@))) {
            (Some(v), Some(t)) => v@ == t,
            (None, None) => true,
            _ => false,
        },
{
    let key = chars_of("exchange");
    let n = pairs.len();
    for i in 0..n
        invariant
            n == pairs.len(),
            key@ == "exchange"@,
            forall|j: int| 0 <= j < i ==> pair_key(#[trigger] views(pairs@)[j]) != "exchange"@,
    {
        let p = &pairs[i];
        assert(views(pairs@)[i as int] == p@);
        let (k, v) = match find_char(p, '=') {
            Some(e) => (slice_vec(p, 0, e), slice_vec(p, e + 1, p.len())),
            None => (slice_vec(p, 0, p.len()), Vec::new()),
        };
        proof {
            match find_first(p@, '=') {
                Some(e) => {
                    assert(k@ =~= p@.take(e));
                    assert(v@ =~= p@.skip(e + 1));
                },
                None => {
                    assert(k@ =~= p@);
                    assert(v@ =~= Seq::<char>::empty());
                },
            }
        }
        if seq_eq(&k, &key) {
            proof {
                lemma_exchange_skip(views(pairs@), i as int);
            }
            return Some(v);
        }
    }
    proof {
        lemma_exchange_skip(views(pairs@), n as int);
    }
    None
}

fn raw_exchange_of(request: &str) -> (r: Option<Vec<char>>)
    ensures
        match (r, raw_exchange(request@)) {
            (Some(v), Some(t)) => v@ == t,
            (None, None) => true,
            _ => false,
        },
{
    let req = chars_of(request);
    let (head, body) = head_and_body(&req);
    if head.len() == 0 {
        return None;
    }
    let ls = lines_of(&head);
    proof {
        crate::text::lemma_split_nonempty(head@, '\n');
        assert(lines(head@).len() > 0);
    }
    assert(views(ls@)[0] == ls@[0]@);
    let ws = split_ws(&ls[0]);
    if ws.len() < 2 {
        return None;
    }
    let path = &ws[1];
    assert(views(ws@)[1] == path@);
    match query_of(path) {
        Some(q) => {
            let pairs = split_chars(&q, '&');
            match exchange_pair(&pairs) {
                Some(v) => {
                    return Some(v);
                },
                None => {},
            }
        },
        None => {},
    }
    let pairs = split_chars(&body, '&');
    match exchange_pair(&pairs) {
        Some(v) => {
            let (a, b) = trim_bounds(&v);
            Some(slice_vec(&v, a, b))
        },
        None => None,
    }
}

/// The exchange token that the browser hands back: in the query string of the
/// request line (`GET /oauth?exchange=...`), or else in a form body
/// (`exchange=...`), percent-decoded.
pub fn parse_exchange_from_request(request: &str) -> (r: Option<String>)
    requires
        exchange_decodable(request@),
    ensures
        opt_view(r) == exchange_token_of(request@),
{
    match raw_exchange_of(request) {
        Some(v) => {
            let raw = string_of(&v);
            Some(percent_decode(raw.as_str()))
        },
        None => None,
    }
}

/// Whether `parse_exchange_from_request` can take this request.
pub fn exchange_is_decodable(request: &str) -> (b: bool)
    ensures
        b == exchange_decodable(request@),
{
    match raw_exchange_of(request) {
        Some(v) => {
            let raw = string_of(&v);
            let bytes = raw.as_str().as_bytes();
            let n = bytes.len();
            for i in 0..n
                invariant
                    n == bytes@.len(),
                    bytes@ == encode_utf8(v@),
                    raw_exchange(request@) == Some(v@),
                    forall|j: int|
                        0 <= j < i && j + 3 < n && #[trigger] bytes@[j] == 37
                            ==> !vstd::utf8::is_continuation_byte(bytes@[j + 3]),
            {
                if bytes[i] == 37 && n >= 4 && i < n - 3 && 0x80 <= bytes[i + 3] && bytes[i
                    + 3] <= 0xBF {
                    assert(vstd::utf8::is_continuation_byte(bytes@[i + 3]));
                    assert(bytes@[i as int] == 37);
                    assert(!pct_decodable(encode_utf8(v@)));
                    return false;
                }
            }
            true
        },
        None => true,
    }
}

// --------------------------------------------------------- reading the request

/// The largest request the listener reads, in bytes.
pub const MAX_REQUEST: usize = 524288;

/// A numeral without its optional leading `+`.
pub open spec fn unsigned_digits(s: Seq<char>) -> Seq<char> {
    if s.len() > 0 && s[0] == '+' {
        s.drop_first()
    } else {
        s
    }
}

/// `str::parse::<usize>`: an optional `+`, then one or more decimal digits,
/// with a value that fits in `usize`.
pub open spec fn parse_usize(s: Seq<char>) -> Option<nat> {
    let d = unsigned_digits(s);
    if d.len() > 0 && (forall|i: int| 0 <= i < d.len() ==> is_digit(#[trigger] d[i]))
        && digits_value(d) <= usize::MAX {
        Some(digits_value(d))
    } else {
        None
    }
}

/// The value a header line gives `Content-Length`, if it is that header
/// (matched without regard to ASCII case); a value that does not parse is 0.
pub open spec fn header_length(line: Seq<char>) -> Option<nat> {
    let low = lower_seq(line);
    if starts_with(low, "content-length:"@) {
        Some(
            match parse_usize(trim(low.skip(15))) {
                Some(v) => v,
                None => 0,
            },
        )
    } else {
        None
    }
}

/// The `Content-Length` of a list of header lines: the last such header
/// wins; none means 0.
pub open spec fn content_length_in(ls: Seq<Seq<char>>) -> nat
    decreases ls.len(),
{
    if ls.len() == 0 {
        0
    } else {
        match header_length(ls.last()) {
            Some(v) => v,
            None => content_length_in(ls.drop_last()),
        }
    }
}

/// The `Content-Length` of a header block, skipping the request line.
pub open spec fn content_length(headers: Seq<char>) -> nat {
    let ls = lines(headers);
    if ls.len() == 0 {
        0
    } else {
        content_length_in(ls.skip(1))
    }
}

/// Where the header block ends, and how long the blank line after it is.
pub open spec fn header_end(t: Seq<char>) -> Option<(int, int)> {
    match find_sub(t, "\r\n\r\n"@) {
        Some(k) => Some((k, 4)),
        None => match find_sub(t, "\n\n"@) {
            Some(k) => Some((k, 2)),
            None => None,
        },
    }
}

/// The request read so far (`data_len` bytes, read as `t`) holds its whole
/// header block and as many body bytes as `Content-Length` announces.
pub open spec fn request_done(t: Seq<char>, data_len: nat) -> bool {
    match header_end(t) {
        None => false,
        Some((k, sep)) => data_len >= byte_len(t.take(k)) + sep + content_length(t.take(k)),
    }
}

/// Where the announced end of the request lies past what `usize` holds (the
/// sum that plain Rust arithmetic cannot form).
pub open spec fn request_overflows(t: Seq<char>) -> bool {
    match header_end(t) {
        None => false,
        Some((k, sep)) => byte_len(t.take(k)) + sep + content_length(t.take(k)) > usize::MAX,
    }
}

/// What to do after another read from the browser's connection.
pub enum RequestProgress {
    /// Stop with this error.
    TooLarge(String),
    /// The request has fully arrived.
    Complete,
    /// Read more.
    More,
}

fn parse_usize_chars(s: &Vec<char>) -> (r: Option<usize>)
    ensures
        match r {
            Some(v) => parse_usize(s@) == Some(v as nat),
            None => parse_usize(s@) is None,
        },
{
    let start: usize = if s.len() > 0 && s[0] == '+' {
        1
    } else {
        0
    };
    let d = slice_vec(s, start, s.len());
    proof {
        if start == 1 {
            assert(d@ =~= s@.drop_first());
        } else {
            assert(d@ =~= s@);
        }
    }
    match digits_upto(&d, usize::MAX as u128) {
        Some(v) => Some(v as usize),
        None => None,
    }
}

fn header_length_of(line: &Vec<char>) -> (r: Option<usize>)
    ensures
        match r {
            Some(v) => header_length(line@) == Some(v as nat),
            None => header_length(line@) is None,
        },
{
    let mut low: Vec<char> = Vec::new();
    let n = line.len();
    for i in 0..n
        invariant
            n == line.len(),
            low@ == lower_seq(line@.take(i as int)),
    {
        low.push(ascii_lower_char(line[i]));
        proof {
            assert(lower_seq(line@.take(i + 1)) =~= lower_seq(line@.take(i as int)).push(
                ascii_lower(line@[i as int]),
            ));
        }
    }
    proof {
        assert(line@.take(n as int) =~= line@);
        reveal_strlit("content-length:");
    }
    let key = chars_of("content-length:");
    if !has_prefix(&low, &key) {
        return None;
    }
    let rest = slice_vec(&low, 15, low.len());
    assert(rest@ =~= low@.skip(15));
    let (a, b) = trim_bounds(&rest);
    let t = slice_vec(&rest, a, b);
    match parse_usize_chars(&t) {
        Some(v) => Some(v),
        None => Some(0),
    }
}

fn content_length_of(headers: &Vec<char>) -> (r: usize)
    ensures
        r == content_length(headers@),
{
    let ls = lines_of(headers);
    if ls.len() == 0 {
        return 0;
    }
    let ghost rest = lines(headers@).skip(1);
    let mut cur: usize = 0;
    let n = ls.len();
    for i in 1..n
        invariant
            n == ls.len(),
            n >= 1,
            views(ls@) == lines(headers@),
            rest == lines(headers@).skip(1),
            cur == content_length_in(rest.take(i - 1)),
    {
        proof {
            assert(rest.take(i as int).drop_last() =~= rest.take(i - 1));
            assert(rest.take(i as int).last() == ls@[i as int]@);
        }
        match header_length_of(&ls[i]) {
            Some(v) => {
                cur = v;
            },
            None => {},
        }
    }
    proof {
        assert(rest.take(n - 1) =~= rest);
    }
    cur
}

/// Decides, after each read from the browser's connection, whether the
/// request is too large (over 512 KiB), complete (its header block and
/// announced body have arrived), or still arriving. `text` is the data read
/// so far as text and `data_len` its length in bytes.
pub fn request_progress(text: &str, data_len: usize) -> (r: RequestProgress)
    requires
        data_len <= MAX_REQUEST ==> !request_overflows(text@),
    ensures
        data_len > MAX_REQUEST ==> (r matches RequestProgress::TooLarge(m) && m@
            == "Browser return request too large"@),
        data_len <= MAX_REQUEST ==> (r is Complete <==> request_done(text@, data_len as nat)),
        data_len <= MAX_REQUEST ==> (r is Complete || r is More),
{
    if data_len > MAX_REQUEST {
        return RequestProgress::TooLarge(String::from_str("Browser return request too large"));
    }
    let t = chars_of(text);
    let crlf = chars_of("\r\n\r\n");
    let lf = chars_of("\n\n");
    proof {
        reveal_strlit("\r\n\r\n");
        reveal_strlit("\n\n");
    }
    let (k, sep): (usize, u128) = match find_seq(&t, &crlf) {
        Some(k) => (k, 4),
        None => match find_seq(&t, &lf) {
            Some(k) => (k, 2),
            None => {
                return RequestProgress::More;
            },
        },
    };
    let headers = slice_vec(&t, 0, k);
    assert(headers@ =~= t@.take(k as int));
    let hb = utf8_len(&headers);
    let cl = content_length_of(&headers);
    if data_len as u128 >= hb + sep + cl as u128 {
        RequestProgress::Complete
    } else {
        RequestProgress::More
    }
}

/// Whether the end that the request announces lies past what `usize` holds;
/// `request_progress` does not take such a request.
pub fn request_length_overflows(text: &str) -> (b: bool)
    ensures
        b == request_overflows(text@),
{
    let t = chars_of(text);
    let crlf = chars_of("\r\n\r\n");
    let lf = chars_of("\n\n");
    proof {
        reveal_strlit("\r\n\r\n");
        reveal_strlit("\n\n");
    }
    let (k, sep): (usize, u128) = match find_seq(&t, &crlf) {
        Some(k) => (k, 4),
        None => match find_seq(&t, &lf) {
            Some(k) => (k, 2),
            None => {
                return false;
            },
        },
    };
    let headers = slice_vec(&t, 0, k);
    assert(headers@ =~= t@.take(k as int));
    let hb = utf8_len(&headers);
    let cl = content_length_of(&headers);
    hb + sep + cl as u128 > usize::MAX as u128
}

// ------------------------------------------------------ waiting for the browser

/// How long the listener waits for the browser to come back: 300 s, in
/// nanoseconds.
pub const ACCEPT_TIMEOUT_NANOS: u128 = 300000000000;

/// How long the listener sleeps between polls, in milliseconds.
pub const ACCEPT_POLL_MILLIS: u64 = 200;

/// What one poll of the non-blocking listener gave.
pub enum AcceptOutcome {
    /// The browser connected.
    Accepted,
    /// No connection yet.
    WouldBlock,
    /// The listener failed; the text is the error.
    Failed(String),
}

/// What the listener does next.
pub enum AcceptStep {
    /// Read the browser's request from the new connection.
    Proceed,
    /// Sleep this many milliseconds, then poll again.
    Sleep(u64),
    /// Give up with this error.
    Stop(String),
}

/// Decides after one poll of the listener, `elapsed_nanos` after waiting
/// began: go on with a connection, give up after 300 s or on a listener
/// error, or sleep 200 ms and poll again.
pub fn accept_step(outcome: AcceptOutcome, elapsed_nanos: u128) -> (r: AcceptStep)
    ensures
        outcome is Accepted ==> r is Proceed,
        outcome is WouldBlock && elapsed_nanos > ACCEPT_TIMEOUT_NANOS ==> (r matches AcceptStep::Stop(
            m,
        ) && m@ == "Timed out waiting for browser sign-in"@),
        outcome is WouldBlock && elapsed_nanos <= ACCEPT_TIMEOUT_NANOS ==> (r matches AcceptStep::Sleep(
            ms,
        ) && ms == ACCEPT_POLL_MILLIS),
        outcome matches AcceptOutcome::Failed(e) ==> (r matches AcceptStep::Stop(m) && m@
            == "waiting for browser return: "@ + e@),
{
    match outcome {
        AcceptOutcome::Accepted => AcceptStep::Proceed,
        AcceptOutcome::WouldBlock => {
            if elapsed_nanos > ACCEPT_TIMEOUT_NANOS {
                AcceptStep::Stop(String::from_str("Timed out waiting for browser sign-in"))
            } else {
                AcceptStep::Sleep(ACCEPT_POLL_MILLIS)
            }
        },
        AcceptOutcome::Failed(e) => {
            let mut m = String::new();
            push_str(&mut m, "waiting for browser return: ");
            push_str(&mut m, e.as_str());
            AcceptStep::Stop(m)
        },
    }
}

// ------------------------------------------------------------- the reply page

/// The page the browser shows after handing back the token.
pub const RETURN_PAGE: &'static str = "<!doctype html><html><body style=\"font-family:system-ui;background:#090b0f;color:#f3f6fb;padding:2rem\"><h1>Bay Buddy connected</h1><p>You can close this tab and return to the app.</p></body></html>";

/// An HTTP `200 OK` response carrying an HTML page.
pub open spec fn http_ok_page(body: Seq<char>) -> Seq<char> {
    "HTTP/1.1 200 OK\r\nContent-Type: text/html; charset=utf-8\r\nContent-Length: "@ + decimal(
        byte_len(body),
    ) + "\r\nConnection: close\r\n\r\n"@ + body
}

/// The HTTP response sent to the browser once the token has arrived.
pub fn loopback_response() -> (r: String)
    ensures
        r@ == http_ok_page(RETURN_PAGE@),
{
    let body = chars_of(RETURN_PAGE);
    let n = utf8_len(&body);
    let mut out = String::new();
    push_str(&mut out, "HTTP/1.1 200 OK\r\nContent-Type: text/html; charset=utf-8\r\nContent-Length: ");
    push_decimal(&mut out, n);
    push_str(&mut out, "\r\nConnection: close\r\n\r\n");
    push_str(&mut out, RETURN_PAGE);
    proof {
        assert(out@ =~= http_ok_page(RETURN_PAGE@));
    }
    out
}

/// The exchange token of the browser's request, or the error when it holds
/// none (naming how many bytes arrived).
pub fn exchange_from_request(request: &str) -> (r: Result<String, String>)
    requires
        exchange_decodable(request@),
    ensures
        match exchange_token_of(request@) {
            Some(t) => r matches Ok(v) && v@ == t,
            None => r matches Err(e) && e@ == "Browser returned without an exchange token (received "@
                + decimal(byte_len(request@)) + " bytes)"@,
        },
{
    match parse_exchange_from_request(request) {
        Some(v) => Ok(v),
        None => {
            let n = utf8_len(&chars_of(request));
            let mut e = String::new();
            push_str(&mut e, "Browser returned without an exchange token (received ");
            push_decimal(&mut e, n);
            push_str(&mut e, " bytes)");
            proof {
                assert(e@ =~= "Browser returned without an exchange token (received "@ + decimal(
                    byte_len(request@),
                ) + " bytes)"@);
            }
            Err(e)
        },
    }
}

} // verus!
