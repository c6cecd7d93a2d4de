use mypets::error::LookupError;
use mypets::ids::{get_object_id, is_id};

#[test]
fn identifier_is_read_as_twelve_bytes() {
    assert_eq!(
        get_object_id("53e37d08776f724e42000000"),
        Ok(vec![0x53, 0xe3, 0x7d, 0x08, 0x77, 0x6f, 0x72, 0x4e, 0x42, 0x00, 0x00, 0x00])
    );
    assert_eq!(get_object_id("000000000000000000000000"), Ok(vec![0; 12]));
    assert_eq!(get_object_id("ffffffffffffffffffffffff"), Ok(vec![255; 12]));
}

#[test]
fn identifier_may_be_written_in_either_case() {
    assert_eq!(get_object_id("53E37D08776F724E42000000"), get_object_id("53e37d08776f724e42000000"));
    assert_eq!(get_object_id("aBcDeF0123456789abcdefAB").unwrap()[0], 0xab);
}

#[test]
fn string_of_another_length_is_no_identifier() {
    assert_eq!(get_object_id(""), Err(LookupError::InvalidId));
    assert_eq!(get_object_id("53e37d08776f724e4200000"), Err(LookupError::InvalidId));
    assert_eq!(get_object_id("53e37d08776f724e420000000"), Err(LookupError::InvalidId));
    assert_eq!(get_object_id("53e37d08776f724e42000000ab"), Err(LookupError::InvalidId));
}

#[test]
fn string_with_other_characters_is_no_identifier() {
    assert_eq!(get_object_id("53e37d08776f724e4200000g"), Err(LookupError::InvalidId));
    assert_eq!(get_object_id("53e37d08 76f724e42000000"), Err(LookupError::InvalidId));
    assert_eq!(get_object_id("５3e37d08776f724e42000000"), Err(LookupError::InvalidId));
    assert_eq!(get_object_id("éééééééééééé"), Err(LookupError::InvalidId));
}

#[test]
fn identifiers_are_compared_by_their_bytes() {
    let wanted = get_object_id("53e37d08776f724e42000000").unwrap();
    assert!(is_id("53e37d08776f724e42000000", &wanted));
    assert!(is_id("53E37D08776F724E42000000", &wanted));
    assert!(!is_id("53e37d08776f724e42000001", &wanted));
    assert!(!is_id("53e37d08776f724e420000", &wanted));
    assert!(!is_id("", &wanted));
    assert!(!is_id("", &vec![]));
}
