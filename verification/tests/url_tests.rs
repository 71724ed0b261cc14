use bay_buddy::url::{companion_start_url, percent_decode, percent_encode};

#[test]
fn percent_encode_keeps_unreserved() {
    assert_eq!(percent_encode("AZaz09-_.~"), "AZaz09-_.~");
    assert_eq!(percent_encode("a b/ü"), "a%20b%2F%C3%BC");
    assert_eq!(percent_encode("http://127.0.0.1:8080/oauth"), "http%3A%2F%2F127.0.0.1%3A8080%2Foauth");
}

#[test]
fn percent_decode_handles_plus_and_bad_escapes() {
    assert_eq!(percent_decode("a+b%20c"), "a b c");
    assert_eq!(percent_decode("%zz%4"), "%zz%4");
    assert_eq!(percent_decode("%+41"), "\u{4}1");
    assert_eq!(percent_decode("%C3%BC"), "ü");
    assert_eq!(percent_decode("%FF"), "\u{fffd}");
}

#[test]
fn percent_roundtrip() {
    for s in ["", "a b+c%", "ünïcødé ✓", "exchange=1&x=2", "\r\n"] {
        assert_eq!(percent_decode(&percent_encode(s)), s);
    }
}

#[test]
fn start_url_with_provider() {
    assert_eq!(
        companion_start_url(8080, Some(" GitHub ")),
        "https://thermaltrace.dev/api/auth/companion/start?client=baybuddy&loopback=http%3A%2F%2F127.0.0.1%3A8080%2Foauth&provider=github"
    );
}

#[test]
fn start_url_ignores_unknown_provider() {
    let plain = companion_start_url(1, None);
    assert_eq!(
        plain,
        "https://thermaltrace.dev/api/auth/companion/start?client=baybuddy&loopback=http%3A%2F%2F127.0.0.1%3A1%2Foauth"
    );
    assert_eq!(companion_start_url(1, Some("apple")), plain);
    assert_eq!(companion_start_url(65535, Some("DISCORD")).ends_with("65535%2Foauth&provider=discord"), true);
}
