//! Colours as text: the `#rrggbb` form and back.

use vstd::prelude::*;
use crate::text::{hex_digit, hex_value, hex_digit_char, hex_digit_value};

verus! {

/// The two lower-case hexadecimal digits of a byte, high digit first.
pub open spec fn hex_byte(b: u8) -> Seq<char> {
    seq![hex_digit(b as int / 16), hex_digit(b as int % 16)]
}

/// The text `#rrggbb` of a colour.
pub open spec fn hex_text(rgb: [u8; 3]) -> Seq<char> {
    seq!['#'] + hex_byte(rgb[0]) + hex_byte(rgb[1]) + hex_byte(rgb[2])
}

/// The byte that two hexadecimal digits stand for, if both are digits.
pub open spec fn byte_of_hex(high: char, low: char) -> Option<u8> {
    match (hex_value(high), hex_value(low)) {
        (Some(h), Some(l)) => Some((h * 16 + l) as u8),
        _ => None,
    }
}

/// The colour that a text of the form `#rrggbb` stands for; `None` for any
/// other text.
pub open spec fn colour_of_hex(s: Seq<char>) -> Option<[u8; 3]> {
    if s.len() == 7 && s[0] == '#' {
        match (byte_of_hex(s[1], s[2]), byte_of_hex(s[3], s[4]), byte_of_hex(s[5], s[6])) {
            (Some(r), Some(g), Some(b)) => Some([r, g, b]),
            _ => None,
        }
    } else {
        None
    }
}

/// Formats a colour as `#rrggbb`, each channel as two lower-case hexadecimal
/// digits.
pub fn rgb_to_hex(rgb: [u8; 3]) -> (hex: String)
    ensures
        hex@ == hex_text(rgb),
{
    let mut hex = String::new();
    hex.push('#');
    let mut i: usize = 0;
    while i < 3
        invariant
            i <= 3,
            i == 0 ==> hex@ == seq!['#'],
            i == 1 ==> hex@ == seq!['#'] + hex_byte(rgb[0]),
            i == 2 ==> hex@ == seq!['#'] + hex_byte(rgb[0]) + hex_byte(rgb[1]),
            i == 3 ==> hex@ == hex_text(rgb),
        decreases 3 - i,
    {
        let b: u8 = rgb[i];
        hex.push(hex_digit_char(b / 16));
        hex.push(hex_digit_char(b % 16));
        i += 1;
    }
    hex
}

/// Reads a colour written as `#rrggbb`; the digits may be of either case.
pub fn hex_to_rgb(hex: &str) -> (rgb: Option<[u8; 3]>)
    ensures
        rgb == colour_of_hex(hex@),
{
    if hex.unicode_len() != 7 {
        return None;
    }
    if hex.get_char(0) != '#' {
        return None;
    }
    let r = read_hex_byte(hex.get_char(1), hex.get_char(2));
    let g = read_hex_byte(hex.get_char(3), hex.get_char(4));
    let b = read_hex_byte(hex.get_char(5), hex.get_char(6));
    match (r, g, b) {
        (Some(r), Some(g), Some(b)) => Some([r, g, b]),
        _ => None,
    }
}

/// Reads one byte from two hexadecimal digits.
pub fn read_hex_byte(high: char, low: char) -> (byte: Option<u8>)
    ensures
        byte == byte_of_hex(high, low),
{
    match (hex_digit_value(high), hex_digit_value(low)) {
        (Some(h), Some(l)) => Some(h * 16 + l),
        _ => None,
    }
}

/// Writing a colour as `#rrggbb` and reading the text back gives the colour.
pub proof fn lemma_hex_round_trip(rgb: [u8; 3])
    ensures
        colour_of_hex(hex_text(rgb)) == Some(rgb),
{
}

} // verus!
