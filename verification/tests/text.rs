use hash_finder::calculator::digest_bytes;
use hash_finder::text::decimal_string;
use hash_finder::text::digit_str;
use hash_finder::text::has_trailing_zeros;
use hash_finder::text::hex_string;
use hash_finder::text::push_decimal;
use hash_finder::text::render_line;

#[test]
fn decimal_string_writes_numerals_without_leading_zeros() {
    assert_eq!(decimal_string(0), "0");
    assert_eq!(decimal_string(7), "7");
    assert_eq!(decimal_string(10), "10");
    assert_eq!(decimal_string(407), "407");
    assert_eq!(decimal_string(1_000_000), "1000000");
    assert_eq!(decimal_string(u64::MAX), "18446744073709551615");
}

#[test]
fn push_decimal_appends_to_what_is_there() {
    let mut text = String::from("n=");
    push_decimal(&mut text, 90);
    assert_eq!(text, "n=90");
}

#[test]
fn digit_str_gives_lowercase_hex_digits() {
    let digits: Vec<&str> = (0..16).map(digit_str).collect();
    assert_eq!(digits.concat(), "0123456789abcdef");
}

#[test]
fn hex_string_writes_two_lowercase_characters_per_byte() {
    assert_eq!(hex_string(&[]), "");
    assert_eq!(hex_string(&[0x00]), "00");
    assert_eq!(hex_string(&[0xa0, 0x0f]), "a00f");
    assert_eq!(hex_string(&[0x01, 0x23, 0x45, 0x67, 0x89, 0xab, 0xcd, 0xef]), "0123456789abcdef");
    assert_eq!(hex_string(&[0xff, 0x10]), "ff10");
}

#[test]
fn has_trailing_zeros_counts_hex_characters() {
    let bytes = [0xab, 0xc0, 0x00];
    assert!(has_trailing_zeros(&bytes, 0));
    assert!(has_trailing_zeros(&bytes, 1));
    assert!(has_trailing_zeros(&bytes, 2));
    assert!(has_trailing_zeros(&bytes, 3));
    assert!(!has_trailing_zeros(&bytes, 4));
    assert!(!has_trailing_zeros(&bytes, 6));
    assert!(!has_trailing_zeros(&bytes, 7));
}

#[test]
fn has_trailing_zeros_on_all_zero_bytes() {
    let bytes = [0u8; 32];
    assert!(has_trailing_zeros(&bytes, 64));
    assert!(!has_trailing_zeros(&bytes, 65));
    assert!(!has_trailing_zeros(&bytes, usize::MAX));
    assert!(has_trailing_zeros(&[], 0));
    assert!(!has_trailing_zeros(&[], 1));
}

#[test]
fn has_trailing_zeros_tells_high_half_from_low_half() {
    assert!(!has_trailing_zeros(&[0x01], 1));
    assert!(has_trailing_zeros(&[0x10], 1));
    assert!(!has_trailing_zeros(&[0x10], 2));
}

#[test]
fn digest_bytes_is_the_hash_of_the_decimal_numeral() {
    assert_eq!(
        digest_bytes(10),
        vec![
            74, 68, 220, 21, 54, 66, 4, 168, 15, 232, 14, 144, 57, 69, 92, 193, 96, 130, 129,
            130, 15, 226, 178, 79, 30, 82, 51, 173, 230, 175, 29, 213
        ]
    );
    assert_eq!(
        hex_string(&digest_bytes(u64::MAX)),
        "2cdb26265b4dc65e3b44d694f121fd6de99b9e4b8ae7f08d84bfa9537635ae43"
    );
    assert_eq!(
        hex_string(&digest_bytes(7)),
        "7902699be42c8a8e46fbbb4501726517e86b22c56a189f7625a6da49081b2451"
    );
}

#[test]
fn render_line_quotes_the_digest() {
    assert_eq!(render_line(23, "ab00"), "23, \"ab00\"");
    assert_eq!(render_line(0, ""), "0, \"\"");
}
