//! Hexadecimal digits, as read in IPv6 addresses and percent-escapes and as
//! written when serialising them.
use vstd::prelude::*;

use crate::text::push_char;

verus! {

/// `b` is one of the ASCII digits `0-9` (0x30-0x39), `A-F` (0x41-0x46) or
/// `a-f` (0x61-0x66).
pub open spec fn is_hex_digit(b: u8) -> bool {
    (0x30 <= b <= 0x39) || (0x41 <= b <= 0x46) || (0x61 <= b <= 0x66)
}

/// The value of a hexadecimal digit (meaningful only where `is_hex_digit(b)`).
pub open spec fn hex_digit_value(b: u8) -> u8 {
    if b <= 0x39 {
        (b - 0x30) as u8
    } else if b <= 0x46 {
        (b - 0x41 + 10) as u8
    } else {
        (b - 0x61 + 10) as u8
    }
}

/// The upper-case ASCII digit for a value below 16.
pub open spec fn upper_hex_digit(v: u8) -> u8 {
    if v < 10 {
        (0x30 + v) as u8
    } else {
        (0x41 + v - 10) as u8
    }
}

/// The upper-case hexadecimal numeral of `v`, without leading zeros
/// (`"0"` for zero).
pub open spec fn upper_hex(v: nat) -> Seq<char>
    decreases v,
{
    if v < 16 {
        seq![upper_hex_digit(v as u8) as char]
    } else {
        upper_hex(v / 16).push(upper_hex_digit((v % 16) as u8) as char)
    }
}

/// The value of an ASCII hexadecimal digit, or `None` for any other byte.
pub fn from_hex(byte: u8) -> (r: Option<u8>)
    ensures
        r == (if is_hex_digit(byte) { Some(hex_digit_value(byte)) } else { None::<u8> }),
        r matches Some(v) ==> v < 16,
{
    if 0x30 <= byte && byte <= 0x39 {
        Some(byte - 0x30)
    } else if 0x41 <= byte && byte <= 0x46 {
        Some(byte + 10 - 0x41)
    } else if 0x61 <= byte && byte <= 0x66 {
        Some(byte + 10 - 0x61)
    } else {
        None
    }
}

/// The upper-case ASCII digit for `value`, which must be below 16.
pub fn to_hex_upper(value: u8) -> (r: u8)
    requires
        value < 16,
    ensures
        r == upper_hex_digit(value),
        is_hex_digit(r),
        hex_digit_value(r) == value,
{
    if value <= 9 {
        0x30 + value
    } else {
        0x41 + value - 10
    }
}

/// The digit that `to_hex_upper` writes for a value reads back, through
/// `from_hex`, as that value.
pub proof fn hex_digit_round_trip(v: u8)
    requires
        v < 16,
    ensures
        is_hex_digit(upper_hex_digit(v)),
        hex_digit_value(upper_hex_digit(v)) == v,
{
}

/// Appends the upper-case hexadecimal numeral of `v` to `out`.
pub fn push_upper_hex(out: &mut String, v: u16)
    ensures
        final(out)@ == old(out)@ + upper_hex(v as nat),
{
    let ghost start = out@;
    if v >= 0x1000 {
        push_char(out, to_hex_upper((v / 0x1000) as u8) as char);
    }
    if v >= 0x100 {
        push_char(out, to_hex_upper(((v / 0x100) % 16) as u8) as char);
    }
    if v >= 0x10 {
        push_char(out, to_hex_upper(((v / 0x10) % 16) as u8) as char);
    }
    push_char(out, to_hex_upper((v % 16) as u8) as char);
    proof {
        let n = v as nat;
        assert(n / 16 / 16 == n / 256);
        assert(n / 256 / 16 == n / 4096);
        if v >= 0x1000 {
            reveal_with_fuel(upper_hex, 4);
        } else if v >= 0x100 {
            reveal_with_fuel(upper_hex, 3);
        } else if v >= 0x10 {
            reveal_with_fuel(upper_hex, 2);
        }
        assert(out@ =~= start + upper_hex(n));
    }
}

} // verus!
