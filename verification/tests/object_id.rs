use stack_engine::object_id::{HexError, HexHash, ObjectId};

#[test]
fn hex_hash() {
    let hex_str = "5c69907b1244089142905dba380371728e2e8160";
    let expected = ObjectId::from_hex(hex_str).expect("valid SHA1 hex-string");
    let actual = HexHash::from_hex(hex_str).expect("input is valid");
    assert_eq!(actual.0, expected);

    let actual = actual.to_hex();
    assert_eq!(actual, "5c69907b1244089142905dba380371728e2e8160");
}

#[test]
fn hex_digits_of_either_case_are_read() {
    let lower = ObjectId::from_hex("00ff10a0000000000000000000000000000000fe").unwrap();
    let upper = ObjectId::from_hex("00FF10A0000000000000000000000000000000FE").unwrap();
    assert_eq!(lower, upper);
    assert_eq!(lower.bytes[1], 255);
    assert_eq!(lower.bytes[2], 16);
    assert_eq!(lower.bytes[19], 254);
    assert_eq!(upper.to_hex(), "00ff10a0000000000000000000000000000000fe");
}

#[test]
fn hex_text_of_wrong_shape_is_refused() {
    assert_eq!(ObjectId::from_hex("abc").unwrap_err(), HexError::InvalidLength);
    assert_eq!(ObjectId::from_hex("").unwrap_err(), HexError::InvalidLength);
    assert_eq!(
        ObjectId::from_hex("5c69907b1244089142905dba380371728e2e816g").unwrap_err(),
        HexError::InvalidDigit
    );
    assert_eq!(
        HexHash::from_hex("5c69907b1244089142905dba380371728e2e81600").unwrap_err(),
        HexError::InvalidLength
    );
}

#[test]
fn null_id_is_all_zero() {
    let null = ObjectId::null();
    assert!(null.is_null());
    assert_eq!(null.to_hex(), "0000000000000000000000000000000000000000");
    assert!(!ObjectId::from_hex("0000000000000000000000000000000000000001").unwrap().is_null());
    let id: ObjectId = HexHash(null).into();
    assert!(id.same(&null));
}

#[test]
fn identifiers_are_ordered_by_their_bytes() {
    let mut low = [0u8; 20];
    low[19] = 255;
    let mut high = [0u8; 20];
    high[0] = 1;
    assert!(ObjectId::from_bytes(low) < ObjectId::from_bytes(high));
    assert!(ObjectId::null() < ObjectId::from_bytes(low));
    let mut ids = vec![ObjectId::from_bytes(high), ObjectId::null(), ObjectId::from_bytes(low)];
    ids.sort();
    assert_eq!(ids, vec![ObjectId::null(), ObjectId::from_bytes(low), ObjectId::from_bytes(high)]);
}
