use bay_buddy::loopback::{
    accept_step, AcceptOutcome, AcceptStep,
    exchange_from_request, exchange_is_decodable, loopback_response, parse_exchange_from_request,
    request_progress, RequestProgress, RETURN_PAGE,
};

#[test]
fn exchange_from_query() {
    let req = "GET /oauth?exchange=abc%20d&x=1 HTTP/1.1\r\nHost: 127.0.0.1\r\n\r\n";
    assert_eq!(parse_exchange_from_request(req).as_deref(), Some("abc d"));
}

#[test]
fn exchange_from_form_body() {
    let req = "POST /oauth HTTP/1.1\r\nContent-Length: 16\r\n\r\nx=1&exchange=t+k \n";
    assert_eq!(parse_exchange_from_request(req).as_deref(), Some("t k"));
}

#[test]
fn exchange_query_wins_over_body() {
    let req = "POST /oauth?exchange=q HTTP/1.1\n\nexchange=b";
    assert_eq!(parse_exchange_from_request(req).as_deref(), Some("q"));
}

#[test]
fn no_exchange() {
    assert_eq!(parse_exchange_from_request(""), None);
    assert_eq!(parse_exchange_from_request("GET\r\n\r\nexchange=x"), None);
    assert_eq!(parse_exchange_from_request("GET /oauth?other=1 HTTP/1.1\r\n\r\n"), None);
}

#[test]
fn exchange_key_without_value() {
    assert_eq!(parse_exchange_from_request("GET /oauth?exchange HTTP/1.1\r\n\r\n").as_deref(), Some(""));
}

#[test]
fn decodable_check() {
    assert!(exchange_is_decodable("GET /oauth?exchange=%41 HTTP/1.1\r\n\r\n"));
    assert!(!exchange_is_decodable("GET /oauth?exchange=%a\u{e9} HTTP/1.1\r\n\r\n"));
}

#[test]
fn missing_exchange_error_names_size() {
    let req = "GET / HTTP/1.1\r\n\r\n";
    assert_eq!(
        exchange_from_request(req).unwrap_err(),
        "Browser returned without an exchange token (received 18 bytes)"
    );
    assert_eq!(exchange_from_request("GET /oauth?exchange=z HTTP/1.1\r\n\r\n").unwrap(), "z");
}

#[test]
fn request_progress_waits_for_body() {
    let head = "POST /oauth HTTP/1.1\r\nContent-Length: 4\r\n\r\n";
    let part = format!("{head}ab");
    assert!(matches!(request_progress(&part, part.len()), RequestProgress::More));
    let full = format!("{head}abcd");
    assert!(matches!(request_progress(&full, full.len()), RequestProgress::Complete));
    assert!(matches!(request_progress("GET / HTTP/1.1\r\n", 16), RequestProgress::More));
    assert!(matches!(request_progress("GET / HTTP/1.1\n\n", 16), RequestProgress::Complete));
}

#[test]
fn request_progress_last_length_header_wins() {
    let text = "POST / HTTP/1.1\r\ncontent-LENGTH: 99\r\nContent-Length: +2\r\n\r\nab";
    assert!(matches!(request_progress(text, text.len()), RequestProgress::Complete));
    let bad = "POST / HTTP/1.1\r\nContent-Length: x\r\n\r\n";
    assert!(matches!(request_progress(bad, bad.len()), RequestProgress::Complete));
}

#[test]
fn request_progress_refuses_large() {
    match request_progress("", 512 * 1024 + 1) {
        RequestProgress::TooLarge(m) => assert_eq!(m, "Browser return request too large"),
        _ => panic!("expected too large"),
    }
    assert!(matches!(request_progress("", 512 * 1024), RequestProgress::More));
}

#[test]
fn response_announces_body_length() {
    let r = loopback_response();
    let expect = format!(
        "HTTP/1.1 200 OK\r\nContent-Type: text/html; charset=utf-8\r\nContent-Length: {}\r\nConnection: close\r\n\r\n{}",
        RETURN_PAGE.len(),
        RETURN_PAGE
    );
    assert_eq!(r, expect);
}

#[test]
fn accept_waits_then_times_out() {
    assert!(matches!(accept_step(AcceptOutcome::Accepted, 999_000_000_000), AcceptStep::Proceed));
    assert!(matches!(accept_step(AcceptOutcome::WouldBlock, 0), AcceptStep::Sleep(200)));
    assert!(matches!(accept_step(AcceptOutcome::WouldBlock, 300_000_000_000), AcceptStep::Sleep(200)));
    match accept_step(AcceptOutcome::WouldBlock, 300_000_000_001) {
        AcceptStep::Stop(m) => assert_eq!(m, "Timed out waiting for browser sign-in"),
        _ => panic!("expected a timeout"),
    }
    match accept_step(AcceptOutcome::Failed("address in use".to_string()), 5) {
        AcceptStep::Stop(m) => assert_eq!(m, "waiting for browser return: address in use"),
        _ => panic!("expected a failure"),
    }
}
