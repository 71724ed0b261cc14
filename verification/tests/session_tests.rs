use bay_buddy::session::{api_error, bearer_header, check_tokens, exchange_error, status_ok, SessionTokens};

fn tokens(a: &str, r: &str) -> SessionTokens {
    SessionTokens { access_token: a.to_string(), refresh_token: r.to_string() }
}

#[test]
fn empty_tokens_are_refused() {
    assert_eq!(check_tokens(&tokens("", "r")).unwrap_err(), "Missing session tokens after exchange");
    assert_eq!(check_tokens(&tokens("a", "")).unwrap_err(), "Missing session tokens after exchange");
    assert!(check_tokens(&tokens("a", "r")).is_ok());
}

#[test]
fn bearer() {
    assert_eq!(bearer_header(&tokens("abc", "r")), "Bearer abc");
}

#[test]
fn status_classes() {
    assert!(status_ok(200));
    assert!(status_ok(299));
    assert!(!status_ok(300));
    assert!(!status_ok(199));
}

#[test]
fn unauthorized_with_mfa() {
    assert_eq!(
        api_error(401, "{\"error\":\"MFA required\"}", &tokens("a", "b")),
        "MFA required — finish MFA in the browser on thermaltrace.dev, then connect again"
    );
}

#[test]
fn unauthorized_reports_lengths_and_excerpt() {
    let body = "y".repeat(200);
    let e = api_error(401, &body, &tokens("ü", "abc"));
    assert_eq!(
        e,
        format!(
            "Session rejected by ThermalTrace (HTTP 401). access_len=2 refresh_len=3 body={}",
            "y".repeat(180)
        )
    );
}

#[test]
fn other_errors() {
    assert_eq!(api_error(503, "down", &tokens("a", "b")), "API error HTTP 503: down");
    assert_eq!(exchange_error("nope"), "exchange failed: nope");
}
