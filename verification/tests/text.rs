//! Digit formatting and the std string operations behind the library.

use koikatsu_dedupe::text::{decimal_string, push_hex};

#[test]
fn decimal_digits_match_to_string() {
    for n in [0u64, 7, 10, 99, 100, 12345, u64::MAX] {
        assert_eq!(decimal_string(n), n.to_string());
    }
}

#[test]
fn hex_digits_match_format() {
    for v in [0u64, 0xAB, 0x0123_4567_89AB_CDEF, u64::MAX] {
        let mut s = String::new();
        push_hex(&mut s, v, 8, false);
        assert_eq!(s, format!("{:016x}", v));
        let mut u = "x".to_string();
        push_hex(&mut u, v, 1, true);
        assert_eq!(u, format!("x{:02X}", v % 256));
    }
}
