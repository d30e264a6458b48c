use crustdb_core::text::{int_text, join_comma, u64_text};

#[test]
fn integers_are_written_in_decimal() {
    assert_eq!(int_text(0), "0");
    assert_eq!(int_text(7), "7");
    assert_eq!(int_text(-45), "-45");
    assert_eq!(int_text(1200), "1200");
    assert_eq!(int_text(i64::MAX), i64::MAX.to_string());
    assert_eq!(int_text(i64::MIN), "-9223372036854775808");
    assert_eq!(u64_text(0), "0");
    assert_eq!(u64_text(10), "10");
    assert_eq!(u64_text(u64::MAX), "18446744073709551615");
}

#[test]
fn names_are_joined_with_commas() {
    assert_eq!(join_comma(&vec![]), "");
    assert_eq!(join_comma(&vec!["a".to_string()]), "a");
    assert_eq!(join_comma(&vec!["a".to_string(), "b".to_string(), "c".to_string()]), "a, b, c");
}
