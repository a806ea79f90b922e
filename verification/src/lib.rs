//! Conversion of hexadecimal color codes (`#fafafa`, `#fff`) into RGB
//! component triples, with a typed error for every way an input can be
//! malformed.

use vstd::prelude::*;
use vstd::string::StrSliceExecFns;
use vstd::string::StringExecFns;

verus! {

/// An RGB color: three 8-bit channels.
#[derive(Debug, Clone, Copy, PartialEq, Eq, Structural)]
pub struct Color {
    pub red: u8,
    pub green: u8,
    pub blue: u8,
}

/// The ways a hex color code can fail to parse.
#[derive(Debug, Clone, Copy, PartialEq, Eq, Structural)]
pub enum HexError {
    /// The hex body (after shorthand expansion) has an odd number of digits.
    OddLength,
    /// The input string is empty.
    Empty,
    /// Catch-all: a non-hex digit, or a wrong digit count.
    Invalid,
}

/// The user-facing message for each error kind.
pub open spec fn error_message(e: HexError) -> Seq<char> {
    match e {
        HexError::Empty => "hexcode is empty."@,
        HexError::OddLength => "invalid hexcode representation. hexcode has odd number of bytes"@,
        HexError::Invalid => "invalid hexcode representation."@,
    }
}

impl HexError {
    /// Renders the error kind as its exact user-facing message.
    pub fn message(&self) -> (r: String)
        ensures
            r@ == error_message(*self),
    {
        match self {
            HexError::Empty => String::from_str("hexcode is empty."),
            HexError::OddLength => String::from_str(
                "invalid hexcode representation. hexcode has odd number of bytes",
            ),
            HexError::Invalid => String::from_str("invalid hexcode representation."),
        }
    }
}

/// Whether `c` is a hexadecimal digit (`0-9`, `a-f`, `A-F`).
pub open spec fn is_hex_digit(c: char) -> bool {
    ('0' <= c && c <= '9') || ('a' <= c && c <= 'f') || ('A' <= c && c <= 'F')
}

/// The numeric value of a hex digit; 0 on a non-digit.
pub open spec fn hex_digit_value(c: char) -> nat {
    if '0' <= c && c <= '9' {
        (c as u32 - '0' as u32) as nat
    } else if 'a' <= c && c <= 'f' {
        (c as u32 - 'a' as u32 + 10) as nat
    } else if 'A' <= c && c <= 'F' {
        (c as u32 - 'A' as u32 + 10) as nat
    } else {
        0
    }
}

/// Whether every character of `s` is a hex digit.
pub open spec fn all_hex_digits(s: Seq<char>) -> bool {
    forall|i: int| 0 <= i < s.len() ==> is_hex_digit(#[trigger] s[i])
}

/// The byte encoded by the two hex digits `hi`, `lo`.
pub open spec fn byte_of(hi: char, lo: char) -> nat {
    16 * hex_digit_value(hi) + hex_digit_value(lo)
}

/// The bytes encoded by the consecutive two-digit chunks of `s`
/// (left to right, non-overlapping, starting at index 0).
pub open spec fn decoded_bytes(s: Seq<char>) -> Seq<u8> {
    Seq::new((s.len() / 2) as nat, |i: int| (byte_of(s[2 * i], s[2 * i + 1]) as u8))
}

/// `s` with each character repeated `n` times in place.
pub open spec fn repeat_each(s: Seq<char>, n: nat) -> Seq<char>
    decreases s.len(),
{
    if s.len() == 0 {
        Seq::empty()
    } else {
        repeat_each(s.drop_last(), n) + Seq::new(n, |j: int| s.last())
    }
}

/// `s` with one leading `#`, if any, removed.
pub open spec fn strip_hash(s: Seq<char>) -> Seq<char> {
    if s.len() > 0 && s[0] == '#' {
        s.skip(1)
    } else {
        s
    }
}

/// The normalized hex body of an input: the optional `#` stripped, and a
/// 3-digit shorthand expanded by doubling each character.
pub open spec fn normalized(s: Seq<char>) -> Seq<char> {
    let body = strip_hash(s);
    if body.len() == 3 {
        repeat_each(body, 2)
    } else {
        body
    }
}

/// The full parse: what `Color::new` returns on every input, as a value of
/// `Result<Color, HexError>`.
///
/// An empty input is `Empty`; after normalization an odd digit count is
/// `OddLength`; a non-hex digit, or a digit count that decodes to fewer than
/// 3 or more than 4 bytes, is `Invalid`; otherwise the first three decoded
/// bytes are the channels in order (a 4th byte is ignored).
pub open spec fn parse_result(s: Seq<char>) -> Result<Color, HexError> {
    if s.len() == 0 {
        Err(HexError::Empty)
    } else {
        let t = normalized(s);
        if t.len() % 2 != 0 {
            Err(HexError::OddLength)
        } else if !all_hex_digits(t) {
            Err(HexError::Invalid)
        } else if t.len() < 6 || t.len() > 8 {
            Err(HexError::Invalid)
        } else {
            Ok(
                Color {
                    red: byte_of(t[0], t[1]) as u8,
                    green: byte_of(t[2], t[3]) as u8,
                    blue: byte_of(t[4], t[5]) as u8,
                },
            )
        }
    }
}

/// The numeric value of a hex digit, or `None` on any other character.
fn hex_digit_val(c: char) -> (r: Option<u8>)
    ensures
        r is Some <==> is_hex_digit(c),
        r matches Some(v) ==> v == hex_digit_value(c) && v < 16,
{
    let u = c as u32;
    if 48 <= u && u <= 57 {
        Some((u - 48) as u8)
    } else if 97 <= u && u <= 102 {
        Some((u - 97 + 10) as u8)
    } else if 65 <= u && u <= 70 {
        Some((u - 65 + 10) as u8)
    } else {
        None
    }
}

impl Color {
    /// Parses a hex color code into a `Color`, or the user-facing message of
    /// the exact `HexError` kind the input falls under.
    pub fn new(hex_code: &str) -> (r: Result<Color, String>)
        ensures
            r matches Ok(c) ==> parse_result(hex_code@) == Ok::<Color, HexError>(c),
            r matches Err(m) ==> (parse_result(hex_code@) matches Err(e) && m@ == error_message(
                e,
            )),
    {
        if hex_code.is_empty() {
            return Err(HexError::Empty.message());
        }
        // remove # from hex_code
        let body: &str = if hex_code.get_char(0) == '#' {
            crop_letters(hex_code, 1)
        } else {
            hex_code
        };
        proof {
            assert(body@ == strip_hash(hex_code@));
        }
        // convert shorthand RGB hexcode to RRGGBB
        let expanded: String = if body.unicode_len() == 3 {
            repeat_letters(body, 1)
        } else {
            String::from_str(body)
        };
        let norm: &str = expanded.as_str();
        proof {
            assert(norm@ == normalized(hex_code@));
        }
        if norm.unicode_len() % 2 != 0 {
            return Err(HexError::OddLength.message());
        }
        let values = match decode_hex(norm) {
            Ok(v) => v,
            Err(e) => {
                return Err(e.message());
            },
        };
        if values.len() < 3 || values.len() > 4 {
            return Err(HexError::Invalid.message());
        }
        let color = Color { red: values[0], green: values[1], blue: values[2] };
        Ok(color)
    }
}

/// Converts a hex color code to its RGB color, or to the user-facing message
/// of the exact `HexError` kind the input falls under.
pub fn convert_hexcode_to_rgb(hex_code: String) -> (r: Result<Color, String>)
    ensures
        r matches Ok(c) ==> parse_result(hex_code@) == Ok::<Color, HexError>(c),
        r matches Err(m) ==> (parse_result(hex_code@) matches Err(e) && m@ == error_message(e)),
{
    match Color::new(hex_code.as_str()) {
        Ok(color) => Ok(color),
        Err(e) => Err(e),
    }
}

/// Crops the characters from 0 to `pos - 1` and returns the rest of the
/// string slice; the empty string when `pos` is past the end.
pub fn crop_letters(s: &str, pos: usize) -> (r: &str)
    ensures
        pos <= s@.len() ==> r@ == s@.skip(pos as int),
        pos > s@.len() ==> r@ == Seq::<char>::empty(),
{
    let n = s.unicode_len();
    if pos <= n {
        let r = s.substring_char(pos, n);
        proof {
            assert(r@ =~= s@.skip(pos as int));
        }
        r
    } else {
        let r = "";
        proof {
            reveal_strlit("");
            assert(r@ =~= Seq::<char>::empty());
        }
        r
    }
}

/// Repeats every character of `s` in place, `repetitions + 1` times each
/// (so `repetitions == 1` doubles each character). A negative count yields
/// the empty string.
pub fn repeat_letters(s: &str, repetitions: i32) -> (r: String)
    ensures
        r@ == repeat_each(s@, (if repetitions < 0 { 0int } else { repetitions + 1 }) as nat),
{
    let ghost n: nat = (if repetitions < 0 { 0int } else { repetitions + 1 }) as nat;
    let reps: i64 = (repetitions as i64) + 1;
    let len = s.unicode_len();
    let mut output = String::new();
    proof {
        assert(s@.take(0) =~= Seq::<char>::empty());
        assert(output@ =~= repeat_each(s@.take(0), n));
    }
    let mut i: usize = 0;
    while i < len
        invariant
            i <= len,
            len == s@.len(),
            n == (if repetitions < 0 { 0int } else { repetitions + 1 }) as nat,
            reps == repetitions + 1,
            output@ == repeat_each(s@.take(i as int), n),
        decreases len - i,
    {
        let piece = s.substring_char(i, i + 1);
        let mut k: i64 = 0;
        while k < reps
            invariant
                0 <= k,
                k <= reps || k == 0,
                i < s@.len(),
                piece@ == s@.subrange(i as int, i + 1),
                output@ == repeat_each(s@.take(i as int), n) + Seq::new(k as nat, |j: int| s@[i as int]),
            decreases reps - k,
        {
            output.append(piece);
            proof {
                assert(piece@ =~= seq![s@[i as int]]);
                assert(repeat_each(s@.take(i as int), n) + Seq::new((k + 1) as nat, |j: int| s@[i as int])
                    =~= repeat_each(s@.take(i as int), n) + Seq::new(k as nat, |j: int| s@[i as int])
                        + seq![s@[i as int]]);
            }
            k = k + 1;
        }
        proof {
            let t = s@.take(i + 1);
            assert(t.drop_last() =~= s@.take(i as int));
            assert(t.last() == s@[i as int]);
            assert(k as nat == n);
            assert(Seq::new(n, |j: int| t.last()) =~= Seq::new(k as nat, |j: int| s@[i as int]));
            assert(output@ == repeat_each(t, n));
        }
        i = i + 1;
    }
    proof {
        assert(s@.take(len as int) =~= s@);
    }
    output
}

/// Converts a string of hex digit pairs into the vector of bytes they
/// encode; `Invalid` if any character is not a hex digit.
pub fn decode_hex(s: &str) -> (r: Result<Vec<u8>, HexError>)
    requires
        s@.len() % 2 == 0,
    ensures
        all_hex_digits(s@) ==> (r matches Ok(v) && v@ == decoded_bytes(s@)),
        !all_hex_digits(s@) ==> r == Err::<Vec<u8>, HexError>(HexError::Invalid),
{
    let len = s.unicode_len();
    let mut out: Vec<u8> = Vec::new();
    proof {
        assert(out@ =~= decoded_bytes(s@.take(0)));
    }
    let mut i: usize = 0;
    while i + 1 < len
        invariant
            i <= len,
            i % 2 == 0,
            len == s@.len(),
            len % 2 == 0,
            all_hex_digits(s@.take(i as int)),
            out@ == decoded_bytes(s@.take(i as int)),
        decreases len - i,
    {
        let hi = match hex_digit_val(s.get_char(i)) {
            Some(v) => v,
            None => {
                return Err(HexError::Invalid);
            },
        };
        let lo = match hex_digit_val(s.get_char(i + 1)) {
            Some(v) => v,
            None => {
                return Err(HexError::Invalid);
            },
        };
        out.push(16 * hi + lo);
        proof {
            let t = s@.take(i + 2);
            assert(all_hex_digits(t));
            assert(decoded_bytes(t).len() == (i + 2) / 2);
            assert(decoded_bytes(t) =~= decoded_bytes(s@.take(i as int)).push(
                (byte_of(s@[i as int], s@[i + 1]) as u8),
            ));
        }
        i = i + 2;
    }
    proof {
        assert(i == len);
        assert(s@.take(len as int) =~= s@);
    }
    Ok(out)
}

/// The character for a decimal digit value.
pub open spec fn digit_char(d: nat) -> char {
    if d == 0 {
        '0'
    } else if d == 1 {
        '1'
    } else if d == 2 {
        '2'
    } else if d == 3 {
        '3'
    } else if d == 4 {
        '4'
    } else if d == 5 {
        '5'
    } else if d == 6 {
        '6'
    } else if d == 7 {
        '7'
    } else if d == 8 {
        '8'
    } else {
        '9'
    }
}

/// The decimal rendering of `n`, without leading zeros.
pub open spec fn decimal_digits(n: nat) -> Seq<char>
    decreases n,
{
    if n < 10 {
        seq![digit_char(n)]
    } else {
        decimal_digits(n / 10) + seq![digit_char(n % 10)]
    }
}

/// The `rgb(R, G, B)` rendering of a color, with decimal channel values.
pub open spec fn rgb_text(c: Color) -> Seq<char> {
    "rgb("@ + decimal_digits(c.red as nat) + ", "@ + decimal_digits(c.green as nat) + ", "@
        + decimal_digits(c.blue as nat) + ")"@
}

/// The one-character string for a decimal digit value.
fn digit_str(d: u8) -> (r: &'static str)
    requires
        d < 10,
    ensures
        r@ == seq![digit_char(d as nat)],
{
    proof {
        reveal_strlit("0");
        reveal_strlit("1");
        reveal_strlit("2");
        reveal_strlit("3");
        reveal_strlit("4");
        reveal_strlit("5");
        reveal_strlit("6");
        reveal_strlit("7");
        reveal_strlit("8");
        reveal_strlit("9");
    }
    let r = match d {
        0 => "0",
        1 => "1",
        2 => "2",
        3 => "3",
        4 => "4",
        5 => "5",
        6 => "6",
        7 => "7",
        8 => "8",
        _ => "9",
    };
    proof {
        assert(r@ =~= seq![digit_char(d as nat)]);
    }
    r
}

/// The decimal rendering of a byte, without leading zeros.
fn decimal_string(n: u8) -> (r: String)
    ensures
        r@ == decimal_digits(n as nat),
{
    if n < 10 {
        String::from_str(digit_str(n))
    } else if n < 100 {
        let r = String::from_str(digit_str(n / 10)).concat(digit_str(n % 10));
        proof {
            assert(decimal_digits((n as nat) / 10) == seq![digit_char((n as nat) / 10)]);
            assert(decimal_digits(n as nat) == decimal_digits((n as nat) / 10) + seq![
                digit_char((n as nat) % 10),
            ]);
            assert(r@ =~= decimal_digits(n as nat));
        }
        r
    } else {
        let h = n / 100;
        let t = (n / 10) % 10;
        let u = n % 10;
        let r = String::from_str(digit_str(h)).concat(digit_str(t)).concat(digit_str(u));
        proof {
            assert((n as nat) / 10 >= 10);
            assert((n as nat) / 10 / 10 == (n as nat) / 100) by {
                vstd::arithmetic::div_mod::lemma_div_denominator(n as int, 10, 10);
            }
            assert(h as nat == (n as nat) / 100);
            assert(t as nat == (n as nat) / 10 % 10);
            assert(u as nat == (n as nat) % 10);
            assert(decimal_digits((n as nat) / 100) == seq![digit_char((n as nat) / 100)]);
            assert(decimal_digits((n as nat) / 10) == decimal_digits((n as nat) / 10 / 10) + seq![
                digit_char((n as nat) / 10 % 10),
            ]);
            assert(decimal_digits(n as nat) == decimal_digits((n as nat) / 10) + seq![
                digit_char((n as nat) % 10),
            ]);
            assert(r@ =~= decimal_digits(n as nat));
        }
        r
    }
}

impl Color {
    /// Renders the color as `rgb(R, G, B)` with decimal channel values and
    /// no leading zeros.
    pub fn to_rgb_string(&self) -> (r: String)
        ensures
            r@ == rgb_text(*self),
    {
        let mut out = String::from_str("rgb(");
        out.append(decimal_string(self.red).as_str());
        out.append(", ");
        out.append(decimal_string(self.green).as_str());
        out.append(", ");
        out.append(decimal_string(self.blue).as_str());
        out.append(")");
        out
    }
}

/// A hex digit's value is below 16.
pub proof fn lemma_hex_digit_value_bound(c: char)
    requires
        is_hex_digit(c),
    ensures
        hex_digit_value(c) < 16,
{
}

/// The byte encoded by two hex digits is below 256.
pub proof fn lemma_byte_of_bound(hi: char, lo: char)
    requires
        is_hex_digit(hi),
        is_hex_digit(lo),
    ensures
        byte_of(hi, lo) < 256,
{
    lemma_hex_digit_value_bound(hi);
    lemma_hex_digit_value_bound(lo);
}

/// Two pairs of hex digits encode the same byte only when the digits have
/// the same values position by position.
pub proof fn lemma_byte_of_injective(h1: char, l1: char, h2: char, l2: char)
    requires
        is_hex_digit(h1),
        is_hex_digit(l1),
        is_hex_digit(h2),
        is_hex_digit(l2),
        byte_of(h1, l1) == byte_of(h2, l2),
    ensures
        hex_digit_value(h1) == hex_digit_value(h2),
        hex_digit_value(l1) == hex_digit_value(l2),
{
    lemma_hex_digit_value_bound(h1);
    lemma_hex_digit_value_bound(l1);
    lemma_hex_digit_value_bound(h2);
    lemma_hex_digit_value_bound(l2);
}

/// Law: a 6-digit hex string, optionally prefixed with one `#`, parses
/// successfully, and the returned channels are the three pairwise-decoded
/// byte values in order.
pub proof fn lemma_parse_valid_six(s: Seq<char>)
    requires
        strip_hash(s).len() == 6,
        all_hex_digits(strip_hash(s)),
    ensures
        ({
            let b = strip_hash(s);
            parse_result(s) == Ok::<Color, HexError>(
                Color {
                    red: byte_of(b[0], b[1]) as u8,
                    green: byte_of(b[2], b[3]) as u8,
                    blue: byte_of(b[4], b[5]) as u8,
                },
            )
        }),
{
    let b = strip_hash(s);
    assert(s.len() > 0);
    assert(normalized(s) == b);
}

/// Law: a 3-digit shorthand of hex digits parses to the same color as its
/// doubled 6-digit form.
pub proof fn lemma_shorthand_equivalent(a: char, b: char, c: char)
    requires
        is_hex_digit(a),
        is_hex_digit(b),
        is_hex_digit(c),
    ensures
        parse_result(seq!['#', a, b, c]) == parse_result(seq!['#', a, a, b, b, c, c]),
{
    let s3 = seq!['#', a, b, c];
    let s6 = seq!['#', a, a, b, b, c, c];
    let e3 = seq![a, b, c];
    let e6 = seq![a, a, b, b, c, c];
    assert(strip_hash(s3) =~= e3);
    assert(strip_hash(s6) =~= e6);
    assert(e3.drop_last() =~= seq![a, b]);
    assert(seq![a, b].drop_last() =~= seq![a]);
    assert(seq![a].drop_last() =~= Seq::<char>::empty());
    assert(repeat_each(Seq::<char>::empty(), 2) =~= Seq::<char>::empty());
    assert(Seq::new(2, |j: int| seq![a].last()) =~= seq![a, a]);
    assert(repeat_each(seq![a], 2) =~= seq![a, a]);
    assert(Seq::new(2, |j: int| seq![a, b].last()) =~= seq![b, b]);
    assert(repeat_each(seq![a, b], 2) =~= seq![a, a, b, b]);
    assert(Seq::new(2, |j: int| e3.last()) =~= seq![c, c]);
    assert(repeat_each(e3, 2) =~= e6);
    assert(normalized(s3) == e6);
    assert(normalized(s6) == e6);
    assert(all_hex_digits(e6));
}

/// Law: parsing is injective on 6-digit bodies up to hex-digit values. Two
/// 6-digit hex strings, each optionally prefixed with one `#`, parse to the
/// same color exactly when their digits have equal hex values position by
/// position.
pub proof fn lemma_six_digit_injective(s: Seq<char>, t: Seq<char>)
    requires
        strip_hash(s).len() == 6,
        all_hex_digits(strip_hash(s)),
        strip_hash(t).len() == 6,
        all_hex_digits(strip_hash(t)),
    ensures
        parse_result(s) == parse_result(t) <==> (forall|i: int|
            0 <= i < 6 ==> hex_digit_value(strip_hash(s)[i]) == hex_digit_value(
                strip_hash(t)[i],
            )),
{
    let b = strip_hash(s);
    let d = strip_hash(t);
    lemma_parse_valid_six(s);
    lemma_parse_valid_six(t);
    assert forall|i: int| 0 <= i < 6 implies is_hex_digit(b[i]) && is_hex_digit(d[i]) by {}
    lemma_byte_of_bound(b[0], b[1]);
    lemma_byte_of_bound(b[2], b[3]);
    lemma_byte_of_bound(b[4], b[5]);
    lemma_byte_of_bound(d[0], d[1]);
    lemma_byte_of_bound(d[2], d[3]);
    lemma_byte_of_bound(d[4], d[5]);
    if parse_result(s) == parse_result(t) {
        assert forall|i: int| 0 <= i < 6 implies hex_digit_value(b[i]) == hex_digit_value(
            d[i],
        ) by {
            lemma_byte_of_injective(b[0], b[1], d[0], d[1]);
            lemma_byte_of_injective(b[2], b[3], d[2], d[3]);
            lemma_byte_of_injective(b[4], b[5], d[4], d[5]);
        }
    } else {
        if forall|i: int|
            0 <= i < 6 ==> hex_digit_value(b[i]) == hex_digit_value(d[i]) {
            assert(byte_of(b[0], b[1]) == byte_of(d[0], d[1]));
            assert(byte_of(b[2], b[3]) == byte_of(d[2], d[3]));
            assert(byte_of(b[4], b[5]) == byte_of(d[4], d[5]));
            assert(false);
        }
    }
}

/// Law: a 4th decoded byte is ignored. An 8-digit hex body, optionally
/// prefixed with one `#`, parses to the same color as its first 6 digits
/// alone.
pub proof fn lemma_fourth_byte_ignored(s: Seq<char>)
    requires
        strip_hash(s).len() == 8,
        all_hex_digits(strip_hash(s)),
    ensures
        ({
            let b = strip_hash(s);
            &&& parse_result(s) is Ok
            &&& parse_result(b.take(6)) == parse_result(s)
        }),
{
    let b = strip_hash(s);
    let b6 = b.take(6);
    assert(s.len() > 0);
    assert(normalized(s) == b);
    assert(is_hex_digit(b[0]));
    assert(b6.len() == 6);
    assert(b6[0] == b[0]);
    assert(b6[0] != '#');
    assert(strip_hash(b6) == b6);
    assert(normalized(b6) == b6);
    assert(all_hex_digits(b6));
    assert(parse_result(s) matches Ok(c) && parse_result(b6) == Ok::<Color, HexError>(c));
}

} // verus!
