//! The MessagePack subset that card blocks are written in.

use koikatsu_dedupe::msgpack::{decode, Reader, Value};

#[test]
fn decodes_a_string_keyed_map_like_a_card_parameter_block() {
    let buf = [
        0x83, 0xA7, b'v', b'e', b'r', b's', b'i', b'o', b'n', 0xA5, b'0', b'.', b'0', b'.', b'5', 0xA3, b's',
        b'e', b'x', 0x01, 0xAB, b'p', b'e', b'r', b's', b'o', b'n', b'a', b'l', b'i', b't', b'y', 0x13,
    ];
    let v = decode(&buf).expect("decode");
    assert_eq!(v.get("version").and_then(|x| x.as_str()), Some("0.0.5"));
    assert_eq!(v.get("sex").and_then(|x| x.as_i64()), Some(1));
    assert_eq!(v.get("personality").and_then(|x| x.as_i64()), Some(19));
}

#[test]
fn decodes_nested_array_of_maps_like_a_block_table() {
    let buf = [
        0x81, 0xA7, b'l', b's', b't', b'I', b'n', b'f', b'o', 0x91, 0x82, 0xA4, b'n', b'a', b'm', b'e', 0xA9, b'P',
        b'a', b'r', b'a', b'm', b'e', b't', b'e', b'r', 0xA4, b's', b'i', b'z', b'e', 0x05,
    ];
    let v = decode(&buf).expect("decode");
    let list = v.get("lstInfo").and_then(|x| x.as_array()).expect("lstInfo");
    assert_eq!(list.len(), 1);
    assert_eq!(list[0].get("name").and_then(|x| x.as_str()), Some("Parameter"));
    assert_eq!(list[0].get("size").and_then(|x| x.as_i64()), Some(5));
}

#[test]
fn a_non_utf8_string_decodes_lossily_instead_of_failing() {
    let buf = [0xA2, 0xFF, b'a'];
    let v = decode(&buf).expect("must not error on invalid UTF-8");
    assert_eq!(v.as_str(), Some("\u{FFFD}a"));
}

#[test]
fn truncated_input_is_an_error_not_a_panic() {
    let buf = [0xA5, b'0', b'.'];
    assert!(decode(&buf).is_err());
}

#[test]
fn wide_types_decode() {
    assert_eq!(decode(&[0xCE, 0x00, 0x01, 0x00, 0x00]).unwrap().as_i64(), Some(65536));
    assert_eq!(decode(&[0xD0, 0xFD]).unwrap().as_i64(), Some(-3));
    assert_eq!(decode(&[0xD9, 0x02, b'h', b'i']).unwrap().as_str(), Some("hi"));
    assert!(matches!(decode(&[0xC4, 0x02, 0x01, 0x02]).unwrap(), Value::Bin(b) if b == vec![1, 2]));
}

#[test]
fn an_unsupported_type_byte_is_named_in_the_error() {
    let e = decode(&[0xC1]).unwrap_err();
    assert_eq!(e, "unsupported msgpack byte 0xC1");
    let e = decode(&[0xD4, 0x01, 0x02]).unwrap_err();
    assert_eq!(e, "unsupported msgpack byte 0xD4");
}

#[test]
fn truncation_is_reported_as_such() {
    assert_eq!(decode(&[]).unwrap_err(), "truncated msgpack");
    assert_eq!(decode(&[0xCD, 0x01]).unwrap_err(), "truncated msgpack");
    assert_eq!(decode(&[0x92, 0x01]).unwrap_err(), "truncated msgpack");
}

#[test]
fn every_fixed_and_sized_integer_form_decodes() {
    assert_eq!(decode(&[0x7F]).unwrap().as_i64(), Some(127));
    assert_eq!(decode(&[0xE0]).unwrap().as_i64(), Some(-32));
    assert_eq!(decode(&[0xFF]).unwrap().as_i64(), Some(-1));
    assert_eq!(decode(&[0xCC, 0xFF]).unwrap().as_i64(), Some(255));
    assert_eq!(decode(&[0xCD, 0x01, 0x00]).unwrap().as_i64(), Some(256));
    assert_eq!(decode(&[0xD1, 0xFF, 0xFE]).unwrap().as_i64(), Some(-2));
    assert_eq!(decode(&[0xD2, 0x80, 0x00, 0x00, 0x00]).unwrap().as_i64(), Some(-2147483648));
    assert_eq!(
        decode(&[0xD3, 0x80, 0, 0, 0, 0, 0, 0, 0]).unwrap().as_i64(),
        Some(i64::MIN)
    );
    assert_eq!(
        decode(&[0xCF, 0x7F, 0xFF, 0xFF, 0xFF, 0xFF, 0xFF, 0xFF, 0xFF]).unwrap().as_i64(),
        Some(i64::MAX)
    );
    assert!(matches!(decode(&[0xCF, 0xFF, 0xFF, 0xFF, 0xFF, 0xFF, 0xFF, 0xFF, 0xFF]).unwrap(), Value::UInt(u64::MAX)));
    assert_eq!(decode(&[0xCF, 0xFF, 0xFF, 0xFF, 0xFF, 0xFF, 0xFF, 0xFF, 0xFF]).unwrap().as_i64(), None);
}

#[test]
fn nil_bool_and_floats_decode() {
    assert!(matches!(decode(&[0xC0]).unwrap(), Value::Nil));
    assert!(matches!(decode(&[0xC2]).unwrap(), Value::Bool(false)));
    assert!(matches!(decode(&[0xC3]).unwrap(), Value::Bool(true)));
    assert!(matches!(decode(&[0xCA, 0x3F, 0x80, 0x00, 0x00]).unwrap(), Value::F32(0x3F80_0000)));
    assert!(matches!(decode(&[0xCB, 0x3F, 0xF0, 0, 0, 0, 0, 0, 0]).unwrap(), Value::F64(0x3FF0_0000_0000_0000)));
}

#[test]
fn a_reader_moves_past_exactly_one_value() {
    let buf = [0x01, 0xA2, b'h', b'i', 0xC0];
    let mut r = Reader::new(&buf);
    assert_eq!(r.pos(), 0);
    assert_eq!(r.read().unwrap().as_i64(), Some(1));
    assert_eq!(r.pos(), 1);
    assert_eq!(r.read().unwrap().as_str(), Some("hi"));
    assert_eq!(r.pos(), 4);
    assert!(matches!(r.read().unwrap(), Value::Nil));
    assert_eq!(r.pos(), 5);
    assert!(r.read().is_err());
}

#[test]
fn lookups_on_the_wrong_shape_find_nothing() {
    let v = decode(&[0x81, 0xA1, b'k', 0x05]).unwrap();
    assert!(v.get("missing").is_none());
    assert!(v.as_str().is_none());
    assert!(v.as_array().is_none());
    assert!(v.as_i64().is_none());
    let n = decode(&[0x05]).unwrap();
    assert!(n.get("k").is_none());
}

#[test]
fn wide_maps_arrays_and_binaries_decode() {
    let v = decode(&[0xDE, 0x00, 0x01, 0xA1, b'a', 0xDC, 0x00, 0x02, 0x01, 0x02]).unwrap();
    let a = v.get("a").and_then(|x| x.as_array()).unwrap();
    assert_eq!(a.len(), 2);
    assert_eq!(a[1].as_i64(), Some(2));
    assert!(matches!(decode(&[0xC5, 0x00, 0x01, 0x09]).unwrap(), Value::Bin(b) if b == vec![9]));
    assert_eq!(decode(&[0xDA, 0x00, 0x01, b'z']).unwrap().as_str(), Some("z"));
}
