//! The line codec on concrete values: exact encodings, exact decodings,
//! and every way a line can be malformed.

use objstore::codec::{decode_objective, decode_user, encode_objective, encode_user, parse_u64,
    split_chars, u64_to_string};
use objstore::structs::{Objective, User};
use objstore::StoreError;

#[test]
fn number_rendering_exact() {
    assert_eq!(u64_to_string(0), "0");
    assert_eq!(u64_to_string(7), "7");
    assert_eq!(u64_to_string(10), "10");
    assert_eq!(u64_to_string(300), "300");
    assert_eq!(u64_to_string(u64::MAX), "18446744073709551615");
}

#[test]
fn number_parsing_exact() {
    assert_eq!(parse_u64("0"), Some(0));
    assert_eq!(parse_u64("42"), Some(42));
    assert_eq!(parse_u64("007"), Some(7));
    assert_eq!(parse_u64("18446744073709551615"), Some(u64::MAX));
}

#[test]
fn number_parsing_rejects() {
    assert_eq!(parse_u64(""), None);
    assert_eq!(parse_u64("12a"), None);
    assert_eq!(parse_u64("-3"), None);
    assert_eq!(parse_u64("+3"), None);
    assert_eq!(parse_u64(" 3"), None);
    // one past the greatest machine word
    assert_eq!(parse_u64("18446744073709551616"), None);
    assert_eq!(parse_u64("99999999999999999999999"), None);
}

#[test]
fn number_round_trip() {
    for n in [0u64, 1, 9, 10, 99, 100, 12345, u64::MAX - 1, u64::MAX] {
        assert_eq!(parse_u64(&u64_to_string(n)), Some(n));
    }
}

#[test]
fn split_on_separator() {
    let parts = split_chars("a\u{b7}b\u{b7}c", '\u{b7}');
    assert_eq!(parts, vec!["a".to_string(), "b".to_string(), "c".to_string()]);
    let parts = split_chars("", '\u{b7}');
    assert_eq!(parts, vec!["".to_string()]);
    let parts = split_chars("\u{b7}\u{b7}", '\u{b7}');
    assert_eq!(parts, vec!["".to_string(), "".to_string(), "".to_string()]);
}

#[test]
fn user_line_exact() {
    let u = User { id: 7, name: "Bob".to_string(), money: 42 };
    assert_eq!(encode_user(&u), "7\u{b7}Bob\u{b7}42\n");
    let back = decode_user("7\u{b7}Bob\u{b7}42").unwrap();
    assert_eq!(back, u);
}

#[test]
fn objective_line_exact() {
    let o = Objective {
        id: 1,
        user_id: 0,
        name: "Bike".to_string(),
        desc: "red bike".to_string(),
        cost: 300,
    };
    assert_eq!(encode_objective(&o), "1\u{b7}0\u{b7}Bike\u{b7}red bike\u{b7}300\n");
    let back = decode_objective("1\u{b7}0\u{b7}Bike\u{b7}red bike\u{b7}300").unwrap();
    assert_eq!(back, o);
}

#[test]
fn user_line_malformed() {
    // wrong field count, both ways
    assert_eq!(decode_user("1\u{b7}Bob"), Err(StoreError::MalformedRecord));
    assert_eq!(decode_user("1\u{b7}Bob\u{b7}2\u{b7}3"), Err(StoreError::MalformedRecord));
    // non-numeric id or balance
    assert_eq!(decode_user("x\u{b7}Bob\u{b7}2"), Err(StoreError::MalformedRecord));
    assert_eq!(decode_user("1\u{b7}Bob\u{b7}much"), Err(StoreError::MalformedRecord));
    // balance past the greatest machine word
    assert_eq!(
        decode_user("1\u{b7}Bob\u{b7}18446744073709551616"),
        Err(StoreError::MalformedRecord)
    );
    // the empty line a trailing newline leaves behind
    assert_eq!(decode_user(""), Err(StoreError::MalformedRecord));
}

#[test]
fn objective_line_malformed() {
    assert_eq!(decode_objective(""), Err(StoreError::MalformedRecord));
    assert_eq!(decode_objective("1\u{b7}2\u{b7}a\u{b7}b"), Err(StoreError::MalformedRecord));
    assert_eq!(
        decode_objective("1\u{b7}2\u{b7}a\u{b7}b\u{b7}c"),
        Err(StoreError::MalformedRecord)
    );
    assert_eq!(
        decode_objective("1\u{b7}two\u{b7}a\u{b7}b\u{b7}3"),
        Err(StoreError::MalformedRecord)
    );
}

#[test]
fn separator_in_field_shifts_fields() {
    // The separator is not escaped: a name containing it changes the
    // field count, so the written line no longer decodes.
    let u = User { id: 1, name: "a\u{b7}b".to_string(), money: 2 };
    let line = encode_user(&u);
    let body = line.trim_end_matches('\n');
    assert_eq!(decode_user(body), Err(StoreError::MalformedRecord));
}
