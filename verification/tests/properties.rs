use hex_rgb::convert_hexcode_to_rgb;
use hex_rgb::Color;
use hex_rgb::HexError;

#[test]
fn six_digit_hexcode_decodes_pairwise() {
    let color = convert_hexcode_to_rgb(String::from("a1b2c3")).unwrap();
    assert_eq!(
        color,
        Color {
            red: 0xa1,
            green: 0xb2,
            blue: 0xc3,
        }
    );
    let prefixed = convert_hexcode_to_rgb(String::from("#a1b2c3")).unwrap();
    assert_eq!(color, prefixed);
}

#[test]
fn uppercase_digits_are_accepted() {
    let color = convert_hexcode_to_rgb(String::from("#ABCDEF")).unwrap();
    assert_eq!(
        color,
        Color {
            red: 171,
            green: 205,
            blue: 239,
        }
    );
    let lower = convert_hexcode_to_rgb(String::from("#abcdef")).unwrap();
    assert_eq!(color, lower);
}

#[test]
fn shorthand_equals_expanded_form() {
    let short = convert_hexcode_to_rgb(String::from("#fff")).unwrap();
    let full = convert_hexcode_to_rgb(String::from("#ffffff")).unwrap();
    assert_eq!(short, full);
    let short2 = convert_hexcode_to_rgb(String::from("#1a9")).unwrap();
    let full2 = convert_hexcode_to_rgb(String::from("#11aa99")).unwrap();
    assert_eq!(short2, full2);
}

#[test]
fn empty_input_fails_with_empty() {
    let err = convert_hexcode_to_rgb(String::new()).unwrap_err();
    assert_eq!(err, HexError::Empty.message());
    assert_eq!(err, "hexcode is empty.");
}

#[test]
fn odd_length_fails_with_odd_length() {
    let err = convert_hexcode_to_rgb(String::from("#fffff")).unwrap_err();
    assert_eq!(err, HexError::OddLength.message());
    assert_eq!(
        err,
        "invalid hexcode representation. hexcode has odd number of bytes"
    );
}

#[test]
fn wrong_byte_counts_fail_with_invalid() {
    // 0, 1, 2 and 5 decoded bytes, all even-length inputs
    for hex in ["#", "ff", "ffff", "ffffffffff"] {
        let err = convert_hexcode_to_rgb(String::from(hex)).unwrap_err();
        assert_eq!(err, HexError::Invalid.message());
        assert_eq!(err, "invalid hexcode representation.");
    }
}

#[test]
fn formats_white_as_rgb_string() {
    let color = convert_hexcode_to_rgb(String::from("#ffffff")).unwrap();
    assert_eq!(
        color,
        Color {
            red: 255,
            green: 255,
            blue: 255,
        }
    );
    assert_eq!(color.to_rgb_string(), "rgb(255, 255, 255)");
}

#[test]
fn formats_channels_without_leading_zeros() {
    let color = convert_hexcode_to_rgb(String::from("#7f0a00")).unwrap();
    assert_eq!(color.to_rgb_string(), "rgb(127, 10, 0)");
}

#[test]
fn distinct_hexcodes_yield_distinct_colors() {
    let a = convert_hexcode_to_rgb(String::from("#000001")).unwrap();
    let b = convert_hexcode_to_rgb(String::from("#000002")).unwrap();
    assert_ne!(a, b);
    // distinct strings whose decoded bytes coincide
    let c = convert_hexcode_to_rgb(String::from("#FFFFFF")).unwrap();
    let d = convert_hexcode_to_rgb(String::from("#ffffff")).unwrap();
    assert_eq!(c, d);
}

#[test]
fn fourth_decoded_byte_is_ignored() {
    let with_alpha = convert_hexcode_to_rgb(String::from("#ffffff00")).unwrap();
    let without = convert_hexcode_to_rgb(String::from("#ffffff")).unwrap();
    assert_eq!(with_alpha, without);
}
