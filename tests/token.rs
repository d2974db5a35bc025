use dswt::{Algorithm, PayloadItem, PayloadType, Token, TokenError, TokenManager, VERSION};

fn claims() -> Vec<PayloadItem> {
    vec![PayloadItem::new("sub", "alice"), PayloadItem::new("role", "admin")]
}

fn segments(wire: &str) -> Vec<String> {
    wire.split(';').map(|s| s.to_string()).collect()
}

#[test]
fn scenario_same_key_same_wire_other_key_other_tag() {
    let t1 = Token::new(Algorithm::HS256, claims(), "k").unwrap();
    let t2 = Token::new(Algorithm::HS256, claims(), "k").unwrap();
    assert_eq!(t1.to_wire(), t2.to_wire());
    let t3 = Token::new(Algorithm::HS256, claims(), "k2").unwrap();
    let s1 = segments(&t1.to_wire());
    let s3 = segments(&t3.to_wire());
    assert_eq!(s1[0], s3[0]);
    assert_eq!(s1[1], s3[1]);
    assert_ne!(s1[2], s3[2]);
    assert!(t1.validate("k"));
    assert!(!t1.validate("k2"));
}

#[test]
fn exact_wire_form() {
    let t = Token::new(Algorithm::HS256, claims(), "k").unwrap();
    assert_eq!(t.version(), VERSION);
    assert_eq!(t.algorithm(), Algorithm::HS256);
    assert_eq!(t.payload()[0].key, "role");
    assert_eq!(t.payload()[1].key, "sub");
    assert_eq!(
        t.to_wire(),
        "RFNXVC0xL0hTMjU2;cm9sZT1hZG1pbixzdWI9YWxpY2U=;KFQPxJPSJRqmsC4IFZn5kDWWp1SZJgLZxJuDZy82pCs="
    );
    assert_eq!(t.get_hash("k2"), "2yEwvXPeu8T/M92PYSLrvl7pplADXDas+EjQKEQXij0=");
}

#[test]
fn scenario_two_parts_is_malformed() {
    let r = Token::parse("RFNXVC0xL0hTMjU2;cm9sZT1hZG1pbixzdWI9YWxpY2U=");
    assert_eq!(r, Err(TokenError::MalformedToken));
}

#[test]
fn round_trip_through_wire() {
    let t = Token::new(Algorithm::HS256, claims(), "secret").unwrap();
    let back = Token::parse(&t.to_wire()).unwrap();
    assert_eq!(back, t);
    assert!(back.validate("secret"));
    let via_from_str: Token = t.to_wire().parse().unwrap();
    assert_eq!(via_from_str, t);
}

#[test]
fn round_trip_typed_and_unicode() {
    let items = vec![
        PayloadItem::typed("name", PayloadType::String, "Zoë ✓"),
        PayloadItem::typed("age", PayloadType::Int, "25"),
        PayloadItem::new("id", "x:y"),
    ];
    let t = Token::new(Algorithm::HS256, items, "k").unwrap();
    let back = Token::parse(&t.to_wire()).unwrap();
    assert_eq!(back, t);
    assert_eq!(back.payload()[0].kind, Some(PayloadType::Int));
    assert!(back.validate("k"));
}

#[test]
fn round_trip_empty_payload() {
    let t = Token::new(Algorithm::HS256, vec![], "k").unwrap();
    let wire = t.to_wire();
    assert!(wire.starts_with("RFNXVC0xL0hTMjU2;;"));
    let back = Token::parse(&wire).unwrap();
    assert_eq!(back, t);
    assert!(back.payload().is_empty());
}

#[test]
fn determinism_any_insertion_order() {
    let a = vec![
        PayloadItem::new("b", "2"),
        PayloadItem::new("a", "1"),
        PayloadItem::new("c", "3"),
    ];
    let b = vec![
        PayloadItem::new("c", "3"),
        PayloadItem::new("b", "2"),
        PayloadItem::new("a", "1"),
    ];
    let ta = Token::new(Algorithm::HS256, a, "key").unwrap();
    let tb = Token::new(Algorithm::HS256, b, "key").unwrap();
    assert_eq!(ta.to_wire(), tb.to_wire());
    assert_eq!(ta, tb);
}

#[test]
fn tamper_detection() {
    let t = Token::new(Algorithm::HS256, claims(), "k").unwrap();
    let wire = t.to_wire();
    let signed_len = wire.rfind(';').unwrap();
    let bytes = wire.as_bytes().to_vec();
    for i in 0..signed_len {
        if bytes[i] == b';' {
            continue;
        }
        for replacement in [b'A', b'z', b'0', b'+'] {
            if bytes[i] == replacement {
                continue;
            }
            let mut changed = bytes.clone();
            changed[i] = replacement;
            let text = String::from_utf8(changed).unwrap();
            match Token::parse(&text) {
                Ok(t2) => assert!(!t2.validate("k"), "accepted a change at {}", i),
                Err(_) => {}
            }
        }
    }
    let mut changed_tag = bytes.clone();
    let last = changed_tag.len() - 2;
    changed_tag[last] = if changed_tag[last] == b'A' { b'B' } else { b'A' };
    let text = String::from_utf8(changed_tag).unwrap();
    if let Ok(t2) = Token::parse(&text) {
        assert!(!t2.validate("k"));
    }
}

#[test]
fn delimiter_rejection() {
    for bad in [";", ",", "="] {
        let in_key = vec![PayloadItem::new(&format!("a{}b", bad), "v")];
        assert_eq!(Token::new(Algorithm::HS256, in_key, "k"), Err(TokenError::InvalidPayloadField));
        let in_value = vec![PayloadItem::new("a", format!("x{}y", bad))];
        assert_eq!(
            Token::new(Algorithm::HS256, in_value, "k"),
            Err(TokenError::InvalidPayloadField)
        );
    }
    let colon_key = vec![PayloadItem::new("a:b", "v")];
    assert_eq!(Token::new(Algorithm::HS256, colon_key, "k"), Err(TokenError::InvalidPayloadField));
    let empty_key = vec![PayloadItem::new("", "v")];
    assert_eq!(Token::new(Algorithm::HS256, empty_key, "k"), Err(TokenError::InvalidPayloadField));
    let duplicate = vec![PayloadItem::new("a", "1"), PayloadItem::new("a", "2")];
    assert_eq!(Token::new(Algorithm::HS256, duplicate, "k"), Err(TokenError::InvalidPayloadField));
    let colon_value = vec![PayloadItem::new("t", "12:30")];
    assert!(Token::new(Algorithm::HS256, colon_value, "k").is_ok());
}

#[test]
fn unknown_algorithm_is_an_error() {
    let r = Token::parse("RFNXVC0xL0hTNTEy;cm9sZT1hZG1pbixzdWI9YWxpY2U=;tag");
    assert_eq!(r, Err(TokenError::UnknownAlgorithm));
}

#[test]
fn malformed_inputs() {
    let cases = [
        "",
        "a;b;c;d",
        "not base64!;cm9sZT1hZG1pbixzdWI9YWxpY2U=;t",
        "RFNXVC0xL0hTMjU2;//4=;t",
        "SldULTEvSFMyNTY=;cm9sZT1hZG1pbixzdWI9YWxpY2U=;t",
        "RFNXVC0wMS9IUzI1Ng==;cm9sZT1hZG1pbixzdWI9YWxpY2U=;t",
        "RFNXVC0yNTYvSFMyNTY=;cm9sZT1hZG1pbixzdWI9YWxpY2U=;t",
        "RFNXVC0xL0hTMjU2;c3ViPWFsaWNlLHJvbGU9YWRtaW4=;t",
        "RFNXVC0xL0hTMjU2;cm9sZT1hZG1pbixzdWI9YWxpY2U;t",
    ];
    for c in cases {
        assert_eq!(Token::parse(c), Err(TokenError::MalformedToken), "{}", c);
    }
}

#[test]
fn lookup_of_entries() {
    let t = Token::new(Algorithm::HS256, claims(), "k").unwrap();
    assert_eq!(t.get_payload_item("sub").map(|i| i.value.clone()), Some("alice".to_string()));
    assert!(t.get_payload_item("missing").is_none());
}

#[test]
fn manager_issue_and_check() {
    let m = TokenManager::new(Algorithm::HS256, "k");
    let t = m.create_token(claims()).unwrap();
    assert_eq!(
        t.to_wire(),
        "RFNXVC0xL0hTMjU2;cm9sZT1hZG1pbixzdWI9YWxpY2U=;KFQPxJPSJRqmsC4IFZn5kDWWp1SZJgLZxJuDZy82pCs="
    );
    assert!(m.validate_token(&t));
    let other = TokenManager::new(Algorithm::HS256, "k2");
    assert!(!other.validate_token(&t));
    assert_eq!(m.decode(&t.to_wire()), Token::parse(&t.to_wire()));
    assert!(m.decode(&t.to_wire()).is_ok());
    assert_eq!(other.decode(&t.to_wire()), Err(TokenError::VerificationFailed));
    assert_eq!(m.decode("x;y"), Err(TokenError::MalformedToken));
    let bad = vec![PayloadItem::new("a", "1,2")];
    assert_eq!(m.create_token(bad), Err(TokenError::InvalidPayloadField));
}

#[test]
fn manager_with_random_key() {
    let (m, key) = TokenManager::generate(Algorithm::HS256);
    assert_eq!(key.len(), 44);
    assert!(key.ends_with('='));
    let t = m.create_token(claims()).unwrap();
    assert!(t.validate(&key));
    let (m2, key2) = TokenManager::generate(Algorithm::HS256);
    assert_ne!(key, key2);
    assert!(!m2.validate_token(&t));
}

#[test]
fn payload_order_does_not_depend_on_input_order() {
    let t = Token::new(
        Algorithm::HS256,
        vec![PayloadItem::new("b", "2"), PayloadItem::new("a", "1")],
        "k",
    )
    .unwrap();
    let keys: Vec<String> = t.payload().iter().map(|i| i.key.clone()).collect();
    assert_eq!(keys, vec!["a".to_string(), "b".to_string()]);
    let segs = segments(&t.to_wire());
    assert_eq!(segs[1], "YT0xLGI9Mg==");
    assert_eq!(t.hash(), &t.get_hash("k"));
}

#[test]
fn manager_from_given_key_bytes() {
    let (m, key) = TokenManager::with_key_bytes(Algorithm::HS256, [0u8; 32]);
    assert_eq!(key, "AAAAAAAAAAAAAAAAAAAAAAAAAAAAAAAAAAAAAAAAAAA=");
    let t = m.create_token(claims()).unwrap();
    assert!(t.validate(&key));
    assert!(!t.validate("AAAA"));
}
