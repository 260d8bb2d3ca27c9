use entropy::app::{fragment_id, fragment_input, parse_key, read_key};
use entropy::common::{decimal_string, hex_string, same_bytes, tracing_disabled};
use entropy::tracing_demo::{client_request, echo};

#[test]
fn hex_of_bytes() {
    assert_eq!(hex_string(&[0x00, 0xab, 0x7f]), "00ab7f");
    assert_eq!(hex_string(&[0xff]), "ff");
}

#[test]
fn decimal_of_numbers() {
    assert_eq!(decimal_string(0), "0");
    assert_eq!(decimal_string(10), "10");
    assert_eq!(decimal_string(4294967295), "4294967295");
    assert_eq!(decimal_string(u64::MAX), "18446744073709551615");
}

#[test]
fn bytes_are_compared() {
    let mut other = [3; 32];
    assert!(same_bytes(&[3; 32], &other));
    other[31] = 4;
    assert!(!same_bytes(&[3; 32], &other));
}

#[test]
fn key_text_is_read_back() {
    let mut key = [0; 32];
    for i in 0..32 {
        key[i] = (i * 8 + 3) as u8;
    }
    let text = hex_string(&key);
    assert_eq!(parse_key(&text), key);
    assert_eq!(parse_key(&text.to_uppercase()), key);
}

#[test]
fn text_that_names_no_key() {
    assert_eq!(read_key(""), None);
    assert_eq!(read_key(&"0".repeat(63)), None);
    assert_eq!(read_key(&"0".repeat(66)), None);
    assert_eq!(read_key(&"g".repeat(64)), None);
    assert_eq!(read_key(&"é".repeat(32)), None);
    assert_eq!(read_key(&"-1".repeat(32)), None);
    assert_eq!(read_key(&"1+".repeat(32)), None);
}

#[test]
fn plus_sign_may_stand_before_a_digit() {
    assert_eq!(read_key(&"+f".repeat(32)), Some([15; 32]));
}

#[test]
fn fragment_identifier_is_a_digest() {
    let key = [0; 32];
    let mut input = vec![0; 32];
    input.extend([1, 2, 3, 4]);
    assert_eq!(fragment_input(&key, 0x04030201), input);
    assert_eq!(
        hex_string(&fragment_id(&key, 0x04030201)),
        "0b4055a2d7eb2f52374a3d1c37acc41c7ed7b76aff3fb1ebaf4aaf9d5c0d3775"
    );
    assert_eq!(
        hex_string(&fragment_id(&key, 0)),
        "6db65fd59fd356f6729140571b5bcd6bb3b83492a16e1bf0a3884442fc3c8a0e"
    );
}

#[test]
fn tracing_is_switched_off_by_true() {
    assert!(tracing_disabled(Some(String::from("true"))));
    assert!(!tracing_disabled(Some(String::from("TRUE"))));
    assert!(!tracing_disabled(None));
}

#[test]
fn demo_asks_itself_and_echoes() {
    assert_eq!(client_request("a"), "http://127.0.0.1:8080/a");
    assert_eq!(echo("a"), "OK a");
}
