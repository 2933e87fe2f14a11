//! Writing numbers as decimal and hexadecimal digits.
use vstd::prelude::*;

verus! {

/// The character of a digit below 16: `0`-`9`, then `a`-`f`.
pub open spec fn digit_char(d: nat) -> char {
    if d < 10 {
        (48 + d) as char
    } else {
        (87 + d) as char
    }
}

/// `v` in lowercase hexadecimal, exactly `width` digits (the low digits of
/// `v`, zero-padded on the left).
pub open spec fn hex_chars(v: nat, width: nat) -> Seq<char>
    decreases width,
{
    if width == 0 {
        seq![]
    } else {
        hex_chars(v / 16, (width - 1) as nat).push(digit_char(v % 16))
    }
}

/// `v` in decimal without leading zeros (`0` for zero).
pub open spec fn decimal_chars(v: nat) -> Seq<char>
    decreases v,
{
    if v < 10 {
        seq![digit_char(v)]
    } else {
        decimal_chars(v / 10).push(digit_char(v % 10))
    }
}

/// Whether a character is a lowercase hexadecimal digit.
pub open spec fn is_hex_digit(c: char) -> bool {
    (48 <= c as u32 <= 57) || (97 <= c as u32 <= 102)
}

/// A fixed-width hexadecimal rendering has exactly that many digits.
pub proof fn lemma_hex_chars_shape(v: nat, width: nat)
    ensures
        hex_chars(v, width).len() == width,
        forall|k: int| 0 <= k < width ==> is_hex_digit(#[trigger] hex_chars(v, width)[k]),
    decreases width,
{
    if width > 0 {
        lemma_hex_chars_shape(v / 16, (width - 1) as nat);
        let d = v % 16;
        assert(is_hex_digit(digit_char(d)));
    }
}

/// The character of a digit below 16.
pub fn digit_to_char(d: u8) -> (c: char)
    requires
        d < 16,
    ensures
        c == digit_char(d as nat),
{
    if d < 10 {
        (48u8 + d) as char
    } else {
        (87u8 + d) as char
    }
}

/// `v` as exactly `width` lowercase hexadecimal digits.
pub fn hex_digits(v: u64, width: usize) -> (r: Vec<char>)
    ensures
        r@ == hex_chars(v as nat, width as nat),
    decreases width,
{
    if width == 0 {
        Vec::new()
    } else {
        let mut r = hex_digits(v / 16, width - 1);
        r.push(digit_to_char((v % 16) as u8));
        r
    }
}

/// `v` in decimal without leading zeros.
pub fn decimal_digits(v: u64) -> (r: Vec<char>)
    ensures
        r@ == decimal_chars(v as nat),
    decreases v,
{
    if v < 10 {
        let mut r = Vec::new();
        r.push(digit_to_char(v as u8));
        r
    } else {
        let mut r = decimal_digits(v / 10);
        r.push(digit_to_char((v % 10) as u8));
        r
    }
}

} // verus!
