use lib::text::{decimal_string, join_strings, push_decimal, push_signed_decimal, push_str};

#[test]
fn decimal_strings() {
    assert_eq!(decimal_string(0), "0");
    assert_eq!(decimal_string(407), "407");
    assert_eq!(decimal_string(u64::MAX), "18446744073709551615");
}

#[test]
fn pushes_append_to_what_is_there() {
    let mut s = "HP ".to_string();
    push_decimal(&mut s, 12);
    push_str(&mut s, " / ");
    push_signed_decimal(&mut s, -3);
    push_str(&mut s, " / ");
    push_signed_decimal(&mut s, i64::MIN);
    assert_eq!(s, "HP 12 / -3 / -9223372036854775808");
}

#[test]
fn join_strings_puts_the_separator_between_parts() {
    assert_eq!(join_strings(&vec![], ", "), "");
    assert_eq!(join_strings(&vec!["a".to_string()], ", "), "a");
    assert_eq!(join_strings(&vec!["a".to_string(), "b".to_string(), "c".to_string()], "; "), "a; b; c");
}
