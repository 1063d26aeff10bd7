use did_toolkit::did::DID;
use did_toolkit::errors::Error;

#[test]
fn did_test_to_string() {
    let did = DID { name: "abcdef".into(), id: "123456".into() };

    assert_eq!(did.to_string(), "did:abcdef:123456");

    let did = DID { name: "abcdef".into(), id: "123456:u:alice".into() };

    assert_eq!(did.to_string(), "did:abcdef:123456:u:alice");
}

#[test]
fn did_test_parse() {
    assert!(DID::parse("").is_err());
    assert!(DID::parse("did::").is_err());
    assert!(DID::parse("did:a:").is_err());
    assert!(DID::parse("frobnik").is_err());
    assert!(DID::parse("did").is_err());
    assert!(DID::parse("frobnik:").is_err());
    assert!(DID::parse("did:").is_err());
    assert!(DID::parse("did:abcdef").is_err());

    let did = DID::parse("did:abcdef:123456").unwrap();
    assert_eq!(did, DID { name: "abcdef".into(), id: "123456".into() });

    let did = DID::parse("did:abcdef:123456:u:alice").unwrap();
    assert_eq!(did, DID { name: "abcdef".into(), id: "123456:u:alice".into() });
}

#[test]
fn did_test_error_kinds() {
    assert_eq!(DID::parse("").unwrap_err(), Error::MalformedIdentifier);
    assert_eq!(DID::parse("did:ABC:123").unwrap_err(), Error::InvalidMethodName);
    assert_eq!(DID::parse("did:not valid:123").unwrap_err(), Error::InvalidMethodName);
}

#[test]
fn did_test_round_trip_bytes() {
    // the id may hold bytes that are not UTF-8 text; they survive a
    // format/parse round trip
    let did = DID { name: "abc".into(), id: vec![0x00, 0xff, 0x20, 0x3a, 0x2f] };
    let text = did.to_string();
    let back = DID::parse(&text).unwrap();
    assert_eq!(back, did);
}
