use jbm::counter::advance;
use jbm::text::{append_decimal, append_hexadecimal, append_signed_decimal, to_chars};

#[test]
fn numbers_are_written_as_text() {
    for value in [0, 9, 10, 4_294_967_296, u64::MAX] {
        let mut out = String::from("n=");
        append_decimal(&mut out, value);
        assert_eq!(out, format!("n={value}"));
        let mut out = String::new();
        append_hexadecimal(&mut out, value);
        assert_eq!(out, format!("{value:x}"));
    }
    for value in [0, -1, 10, i64::MIN, i64::MAX] {
        let mut out = String::new();
        append_signed_decimal(&mut out, value);
        assert_eq!(out, format!("{value}"));
    }
}

#[test]
fn strings_are_taken_apart() {
    assert_eq!(to_chars("a\u{e9}\u{1f600}"), vec!['a', '\u{e9}', '\u{1f600}']);
    assert!(to_chars("").is_empty());
}

#[test]
fn counters_turn_over() {
    assert_eq!(advance(5, 7), 12);
    assert_eq!(advance(u64::MAX, 3), 2);
}
