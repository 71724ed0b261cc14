use bay_buddy::puck::{
    bay_mood_path, command_payload, device_id_from_info, info_field, mood_command,
    normalize_bay_id, provision_reply, LineEvent, LineReader, ProvisionReply, SerialRead,
};
use bay_buddy::secret::{hmac_hex, random_secret_hex};

#[test]
fn normalize_trims_lowercases_and_maps_whitespace() {
    assert_eq!(normalize_bay_id("  Garage Bay 1 ").unwrap(), "garage_bay_1");
    assert_eq!(normalize_bay_id("North\tShed").unwrap(), "north_shed");
    assert_eq!(normalize_bay_id("a.b:c-d_E").unwrap(), "a.b:c-d_e");
}

#[test]
fn normalize_drops_other_characters() {
    assert_eq!(normalize_bay_id("Äbc!?#").unwrap(), "bc");
}

#[test]
fn normalize_keeps_at_most_32() {
    let raw = "x".repeat(40);
    assert_eq!(normalize_bay_id(&raw).unwrap(), "x".repeat(32));
}

#[test]
fn normalize_rejects_empty() {
    assert_eq!(normalize_bay_id("   ").unwrap_err(), "bay id is empty");
    assert_eq!(normalize_bay_id("!!!").unwrap_err(), "bay id is empty");
}

#[test]
fn normalize_is_idempotent() {
    for raw in ["  Garage Bay 1 ", "Äbc!?#", "A B\u{3000}C", "-:._"] {
        let once = normalize_bay_id(raw).unwrap();
        assert_eq!(normalize_bay_id(&once).unwrap(), once);
    }
}

#[test]
fn bay_mood_path_uses_normalized_id() {
    assert_eq!(bay_mood_path(" Garage ").unwrap(), "/api/bays/garage/mood");
    assert_eq!(bay_mood_path("").unwrap_err(), "bay id is empty");
}

#[test]
fn info_field_finds_first_key() {
    let info = "OK device=abc provisioned=yes device=zzz";
    assert_eq!(info_field(info, "device").as_deref(), Some("abc"));
    assert_eq!(info_field(info, "provisioned").as_deref(), Some("yes"));
    assert_eq!(info_field(info, "bay"), None);
    assert_eq!(info_field("device a=b=c", "a").as_deref(), Some("b=c"));
    assert_eq!(info_field("device", "device"), None);
}

#[test]
fn command_payload_trims_and_ends_line() {
    assert_eq!(command_payload("  INFO \t"), "INFO\n");
}

#[test]
fn mood_command_accepts_known_moods() {
    assert_eq!(mood_command(" Cozy ").unwrap(), "MOOD cozy");
    assert_eq!(mood_command("PANIC").unwrap(), "MOOD panic");
    assert_eq!(mood_command("Sad").unwrap_err(), "bad mood: sad");
}

fn feed_all(reader: &mut LineReader, bytes: &[u8]) -> Vec<LineEvent> {
    bytes.iter().map(|b| reader.feed(*b)).collect()
}

#[test]
fn line_reader_picks_out_answers() {
    let mut r = LineReader::new();
    let events = feed_all(&mut r, b"\r\nboot chatter\r\n  OK ready \n");
    let replies: Vec<String> = events
        .into_iter()
        .filter_map(|e| match e {
            LineEvent::Reply(l) => Some(l),
            _ => None,
        })
        .collect();
    assert_eq!(replies, vec!["OK ready".to_string()]);
}

#[test]
fn line_reader_gives_up_on_long_lines() {
    let mut r = LineReader::new();
    let mut last = None;
    for _ in 0..513 {
        last = Some(r.feed(b'a'));
    }
    match last.unwrap() {
        LineEvent::Failed(m) => assert_eq!(m, "serial line too long"),
        _ => panic!("expected failure"),
    }
}

#[test]
fn line_reader_replaces_bad_utf8() {
    let mut r = LineReader::new();
    let events = feed_all(&mut r, b"ERR \xff\n");
    match events.last().unwrap() {
        LineEvent::Reply(l) => assert_eq!(l, "ERR \u{fffd}"),
        _ => panic!("expected reply"),
    }
}

#[test]
fn provision_reply_sorts_answers() {
    let id = "0123456789abcdef0123456789abcdef";
    match provision_reply(&format!("OK device={id}")) {
        ProvisionReply::Provisioned(d) => assert_eq!(d, id),
        _ => panic!("expected provisioned"),
    }
    assert!(matches!(provision_reply("OK device=short"), ProvisionReply::NeedInfo));
    assert!(matches!(provision_reply("OK"), ProvisionReply::NeedInfo));
    match provision_reply("ERR busy") {
        ProvisionReply::Failed(e) => assert_eq!(e, "ERR busy"),
        _ => panic!("expected failure"),
    }
}

#[test]
fn device_id_from_info_checks_length() {
    let id = "0123456789abcdef0123456789abcdef";
    assert_eq!(device_id_from_info(Some(&format!("OK device={id}"))).unwrap(), id);
    assert_eq!(device_id_from_info(Some("OK device=abc")).unwrap_err(), "bad device id from puck");
    assert_eq!(device_id_from_info(Some("OK")).unwrap_err(), "provision ok but device id missing");
    assert_eq!(device_id_from_info(None).unwrap_err(), "provision ok but device id missing");
}

#[test]
fn hmac_hex_matches_rfc_4231() {
    // RFC 4231 test case 2: key "Jefe", data "what do ya want for nothing?".
    let key = "4a656665";
    let data = "7768617420646f2079612077616e7420666f72206e6f7468696e673f";
    assert_eq!(
        hmac_hex(key, data).unwrap(),
        "5bdcc146bf60754e6a042426089575c75a003f089d2739839dec58b964ec3843"
    );
    assert_eq!(hmac_hex("4A656665", data).unwrap(), hmac_hex(key, data).unwrap());
}

#[test]
fn hmac_hex_reports_bad_hex() {
    assert_eq!(hmac_hex("abc", "00").unwrap_err(), "Odd number of digits");
    assert_eq!(hmac_hex("zz", "00").unwrap_err(), "Invalid character 'z' at position 0");
    assert_eq!(hmac_hex("00", "0g").unwrap_err(), "Invalid character 'g' at position 1");
}

#[test]
fn random_secret_is_64_lower_hex() {
    let a = random_secret_hex();
    let b = random_secret_hex();
    assert_eq!(a.len(), 64);
    assert!(a.chars().all(|c| c.is_ascii_digit() || ('a'..='f').contains(&c)));
    assert_ne!(a, b);
}

fn listing(name: &str, product: Option<&str>) -> bay_buddy::puck::PortListing {
    bay_buddy::puck::PortListing { port_name: name.to_string(), usb_product: product.map(|p| p.to_string()) }
}

#[test]
fn ports_are_named_and_sorted() {
    let ports = vec![
        listing("/dev/ttyUSB1", Some("Claim Puck")),
        listing("/dev/ttyS0", None),
        listing("/dev/ttyACM0", Some("")),
    ];
    let out = bay_buddy::puck::describe_ports(&ports);
    let got: Vec<(String, String)> = out.into_iter().map(|p| (p.path, p.name)).collect();
    assert_eq!(
        got,
        vec![
            ("/dev/ttyACM0".to_string(), "/dev/ttyACM0".to_string()),
            ("/dev/ttyS0".to_string(), "/dev/ttyS0".to_string()),
            ("/dev/ttyUSB1".to_string(), "/dev/ttyUSB1 (Claim Puck)".to_string()),
        ]
    );
}

#[test]
fn ports_sort_is_stable_and_bytewise() {
    let ports = vec![listing("b", Some("two")), listing("a", None), listing("b", Some("one")), listing("B", None), listing("é", None)];
    let out = bay_buddy::puck::describe_ports(&ports);
    let names: Vec<String> = out.into_iter().map(|p| p.name).collect();
    assert_eq!(names, vec!["B", "a", "b (two)", "b (one)", "é"]);
}

#[test]
fn hmac_hex_answer_is_64_digits() {
    let h = hmac_hex("00112233", "").unwrap();
    assert_eq!(h.len(), 64);
    assert!(h.chars().all(|c| c.is_ascii_hexdigit() && !c.is_ascii_uppercase()));
}

#[test]
fn serial_reads_become_line_events() {
    let mut r = LineReader::new();
    assert!(matches!(r.on_read(SerialRead::Idle), LineEvent::Pending));
    for b in b"OK done" {
        assert!(matches!(r.on_read(SerialRead::Byte(*b)), LineEvent::Pending));
    }
    match r.on_read(SerialRead::Byte(b'\n')) {
        LineEvent::Reply(l) => assert_eq!(l, "OK done"),
        _ => panic!("expected a reply"),
    }
    match r.on_read(SerialRead::Error("broken pipe".to_string())) {
        LineEvent::Failed(m) => assert_eq!(m, "serial read: broken pipe"),
        _ => panic!("expected failure"),
    }
    match r.on_read(SerialRead::Expired) {
        LineEvent::Failed(m) => assert_eq!(m, "device timed out"),
        _ => panic!("expected failure"),
    }
}
