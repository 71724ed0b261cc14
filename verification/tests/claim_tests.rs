use bay_buddy::claim::{ClaimAction, ClaimEvent, ClaimFlow, ClaimPhase};
use bay_buddy::secret::hmac_hex;

const ID: &str = "0123456789abcdef0123456789abcdef";

fn puck_line(a: &ClaimAction) -> String {
    match a {
        ClaimAction::Puck { line, .. } => line.clone(),
        _ => panic!("expected a puck command"),
    }
}

fn ok(s: &str) -> ClaimEvent {
    ClaimEvent::Puck(Ok(s.to_string()))
}

#[test]
fn refused_without_session_or_bay() {
    let (_, a) = ClaimFlow::begin(false, "garage", None);
    assert!(matches!(a, ClaimAction::Fail(ref e) if e == "Not connected"));
    let (f, a) = ClaimFlow::begin(true, "!!", None);
    assert!(matches!(a, ClaimAction::Fail(ref e) if e == "bay id is empty"));
    assert!(f.phase() == ClaimPhase::Finished);
}

#[test]
fn claim_known_device() {
    let (mut f, a) = ClaimFlow::begin(true, " Garage ", Some("  "));
    assert_eq!(puck_line(&a), "INFO");
    let a = f.step(ok(&format!("OK device={ID} provisioned=yes")));
    match a {
        ClaimAction::ClaimStart { device_id, bay_id } => {
            assert_eq!(device_id, ID);
            assert_eq!(bay_id, "garage");
        },
        _ => panic!("expected claim start"),
    }
    let a = f.step(ClaimEvent::Started(Ok("00ff".into())));
    assert_eq!(puck_line(&a), "CHALLENGE 00ff");
    let a = f.step(ok("RESPONSE ABCDEF"));
    match a {
        ClaimAction::ClaimFinish { device_id, bay_id, nonce_hex, response_hex, space_name } => {
            assert_eq!(device_id, ID);
            assert_eq!(bay_id, "garage");
            assert_eq!(nonce_hex, "00ff");
            assert_eq!(response_hex, "abcdef");
            assert_eq!(space_name, "garage");
        },
        _ => panic!("expected claim finish"),
    }
    let a = f.step(ClaimEvent::Finished(Ok(("garage".into(), "My Garage".into()))));
    assert_eq!(puck_line(&a), "CONFIG bay=garage space=My Garage");
    let a = f.step(ok("OK"));
    assert_eq!(puck_line(&a), "MOOD cozy");
    match f.step(ok("OK mood")) {
        ClaimAction::Done(r) => {
            assert_eq!(r.device_id, ID);
            assert_eq!(r.bay_id, "garage");
            assert_eq!(r.space_name, "My Garage");
            assert_eq!(r.message, "Claimed — press was accepted. Mood light set to cozy.");
        },
        _ => panic!("expected done"),
    }
    assert!(f.phase() == ClaimPhase::Finished);
}

fn provision_to_register(f: &mut ClaimFlow, a: ClaimAction) -> String {
    let line = puck_line(&a);
    assert!(line.starts_with("PROVISION "));
    let secret = line["PROVISION ".len()..].to_string();
    assert_eq!(secret.len(), 64);
    match f.step(ok(&format!("OK device={ID}"))) {
        ClaimAction::Register { device_id, secret_hex } => {
            assert_eq!(device_id, ID);
            assert_eq!(secret_hex, secret);
        },
        _ => panic!("expected register"),
    }
    secret
}

#[test]
fn claim_new_device_checks_answer() {
    let (mut f, _) = ClaimFlow::begin(true, "bay", Some("Cabin"));
    let a = f.step(ok("OK provisioned=no"));
    let secret = provision_to_register(&mut f, a);
    let a = f.step(ClaimEvent::Registered(Ok(())));
    assert!(matches!(a, ClaimAction::ClaimStart { .. }));
    let a = f.step(ClaimEvent::Started(Ok("0a0b".into())));
    assert_eq!(puck_line(&a), "CHALLENGE 0a0b");
    let good = hmac_hex(&secret, "0a0b").unwrap();
    match f.step(ok(&format!("RESPONSE {}", good.to_uppercase()))) {
        ClaimAction::ClaimFinish { response_hex, space_name, .. } => {
            assert_eq!(response_hex, good);
            assert_eq!(space_name, "Cabin");
        },
        _ => panic!("expected claim finish"),
    }
}

#[test]
fn claim_new_device_refuses_wrong_answer() {
    let (mut f, _) = ClaimFlow::begin(true, "bay", None);
    let a = f.step(ok("OK"));
    let secret = provision_to_register(&mut f, a);
    f.step(ClaimEvent::Registered(Ok(())));
    f.step(ClaimEvent::Started(Ok("0a0b".into())));
    let good = hmac_hex(&secret, "0a0b").unwrap();
    match f.step(ok("RESPONSE 00")) {
        ClaimAction::Fail(e) => assert_eq!(e, format!("local verify failed expected={good}")),
        _ => panic!("expected failure"),
    }
}

#[test]
fn refused_start_wipes_and_provisions() {
    let (mut f, _) = ClaimFlow::begin(true, "bay", None);
    f.step(ok(&format!("OK device={ID} provisioned=yes")));
    let a = f.step(ClaimEvent::Started(Err("taken".into())));
    assert_eq!(puck_line(&a), "WIPE");
    let a = f.step(ClaimEvent::Puck(Err("device timed out".into())));
    assert!(puck_line(&a).starts_with("PROVISION "));
}

#[test]
fn provision_asks_info_when_reply_lacks_id() {
    let (mut f, _) = ClaimFlow::begin(true, "bay", None);
    f.step(ok("OK"));
    let a = f.step(ok("OK provisioned"));
    assert_eq!(puck_line(&a), "INFO");
    match f.step(ok("OK device=abc")) {
        ClaimAction::Fail(e) => assert_eq!(e, "bad device id from puck"),
        _ => panic!("expected failure"),
    }
}

#[test]
fn challenge_answer_must_be_response() {
    let (mut f, _) = ClaimFlow::begin(true, "bay", None);
    f.step(ok(&format!("OK device={ID} provisioned=yes")));
    f.step(ClaimEvent::Started(Ok("aa".into())));
    match f.step(ok("ERR timeout")) {
        ClaimAction::Fail(e) => assert_eq!(e, "ERR timeout"),
        _ => panic!("expected failure"),
    }
    let (mut f, _) = ClaimFlow::begin(true, "bay", None);
    f.step(ok(&format!("OK device={ID} provisioned=yes")));
    f.step(ClaimEvent::Started(Ok("aa".into())));
    match f.step(ok("RESPONSE ")) {
        ClaimAction::Fail(e) => assert_eq!(e, "empty RESPONSE"),
        _ => panic!("expected failure"),
    }
}

#[test]
fn config_refusal_fails() {
    let (mut f, _) = ClaimFlow::begin(true, "bay", None);
    f.step(ok(&format!("OK device={ID} provisioned=yes")));
    f.step(ClaimEvent::Started(Ok("aa".into())));
    f.step(ok("RESPONSE 11"));
    f.step(ClaimEvent::Finished(Ok(("bay".into(), "bay".into()))));
    match f.step(ok("ERR full")) {
        ClaimAction::Fail(e) => assert_eq!(e, "ERR full"),
        _ => panic!("expected failure"),
    }
    assert!(!f.accepts_event(&ok("OK")));
}

#[test]
fn claim_keeps_bay_and_space_throughout() {
    let (mut f, _) = ClaimFlow::begin(true, "  Work Shop ", Some("Shop"));
    match f.step(ok(&format!("OK device={ID} provisioned=yes"))) {
        ClaimAction::ClaimStart { bay_id, .. } => assert_eq!(bay_id, "work_shop"),
        _ => panic!("expected claim start"),
    }
    f.step(ClaimEvent::Started(Ok("01".into())));
    match f.step(ok("RESPONSE ff")) {
        ClaimAction::ClaimFinish { bay_id, space_name, .. } => {
            assert_eq!(bay_id, "work_shop");
            assert_eq!(space_name, "Shop");
        },
        _ => panic!("expected claim finish"),
    }
}
