use did_toolkit::codec::{url_decoded, url_encoded, validate_method_name};

#[test]
fn test_encode_decode() {
    let encoded = url_encoded("text with spaces".as_bytes());
    assert_eq!(encoded, String::from("text%20with%20spaces"));
    assert_eq!(url_decoded(encoded.as_bytes()), "text with spaces".as_bytes());
}

#[test]
fn test_battery_encode() {
    for _ in 1..100000 {
        let mut array: [u8; 100] = [0; 100];
        rand::fill(&mut array[..]);
        let encoded = url_encoded(&array);
        assert_eq!(url_decoded(encoded.as_bytes()), array, "{}", encoded);
    }
}

#[test]
fn test_validate_method_name() {
    assert!(validate_method_name("erik".as_bytes()).is_ok());
    assert!(validate_method_name("not valid".as_bytes()).is_err());
}

#[test]
fn test_all_byte_values_round_trip() {
    let every: Vec<u8> = (0u8..=255u8).collect();
    let encoded = url_encoded(&every);
    assert_eq!(url_decoded(encoded.as_bytes()), every);

    let empty: Vec<u8> = Vec::new();
    let encoded = url_encoded(&empty);
    assert_eq!(encoded, "");
    assert_eq!(url_decoded(encoded.as_bytes()), empty);
}

#[test]
fn test_method_name_cases() {
    assert!(validate_method_name("abc123".as_bytes()).is_ok());
    assert!(validate_method_name("Erik".as_bytes()).is_err());
    assert!(validate_method_name("".as_bytes()).is_err());
}

#[test]
fn test_decode_literal_passthrough() {
    assert_eq!(url_decoded("plain".as_bytes()), "plain".as_bytes());
    assert_eq!(url_decoded("%41%42".as_bytes()), "AB".as_bytes());
}
