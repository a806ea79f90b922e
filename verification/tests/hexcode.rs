use hex_rgb::convert_hexcode_to_rgb;
use hex_rgb::crop_letters;
use hex_rgb::decode_hex;
use hex_rgb::repeat_letters;
use hex_rgb::Color;
use hex_rgb::HexError;

fn vec_compare<T: std::cmp::PartialEq>(va: &[T], vb: &[T]) -> bool {
    (va.len() == vb.len()) &&  // zip stops at the shortest
     va.iter()
       .zip(vb)
       .all(|(a,b)| *a == *b)
}

#[test]
fn should_convert_hexcode_to_rgb() {
    let hex = String::from("#ffffff");
    let expected_color: Color = Color {
        red: 255,
        green: 255,
        blue: 255,
    };

    assert_eq!(expected_color, convert_hexcode_to_rgb(hex).unwrap())
}

#[test]
fn should_convert_shorthand_hexcode_to_rgb() {
    let hex = String::from("#fff");
    let expected_color: Color = Color {
        red: 255,
        green: 255,
        blue: 255,
    };

    assert_eq!(expected_color, convert_hexcode_to_rgb(hex).unwrap())
}

#[test]
fn should_throw_error_when_hexcode_is_invalid() {
    let hex = String::from("#fasfsfff");
    let err = convert_hexcode_to_rgb(hex).unwrap_err();
    assert_eq!(err, HexError::Invalid.message());
}

#[test]
fn should_throw_error_when_shorthand_hexcode_is_invalid() {
    let hex = String::from("#a0g");
    let err = convert_hexcode_to_rgb(hex).unwrap_err();
    assert_eq!(err, HexError::Invalid.message());
}

#[test]
fn should_decode_hex() {
    let decoded = decode_hex("ffffff").unwrap();
    let expected: Vec<u8> = vec![255, 255, 255];
    assert!(vec_compare(&expected, &decoded));
}

#[test]
fn should_repeat_letters_once() {
    assert_eq!("ff33ff".to_owned(), repeat_letters("f3f", 1));
}

#[test]
fn should_crop_letters() {
    assert_eq!("ello", crop_letters("hello", 1));
    assert_eq!("fff", crop_letters("#fff", 1));
    assert_eq!("word", crop_letters("longword", 4));
}
