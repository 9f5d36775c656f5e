use cartoboost_core::error::{invalid_input, CartoBoostError};
use cartoboost_core::text::{decimal_text, decimal_text_u64, is_blank_str, join3, str_eq};

#[test]
fn errors_render_with_the_invalid_input_prefix() {
    let error = invalid_input("bad value");
    assert_eq!(error.message(), "invalid input: bad value");
    let CartoBoostError::InvalidInput(text) = error;
    assert_eq!(text, "bad value");
}

#[test]
fn text_helpers_match_std() {
    assert_eq!(decimal_text(0), "0");
    assert_eq!(decimal_text(1234), "1234");
    assert_eq!(decimal_text_u64(u64::MAX), u64::MAX.to_string());
    assert!(is_blank_str(" \t\u{3000}"));
    assert!(is_blank_str(""));
    assert!(!is_blank_str(" x "));
    assert_eq!(join3("a", "", "c"), "ac");
    assert!(str_eq("héllo", "héllo"));
    assert!(!str_eq("a", "ab"));
}
