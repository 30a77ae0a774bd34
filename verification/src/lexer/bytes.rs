//! What a byte counts as.
use vstd::prelude::*;

verus! {

pub const LF: u8 = 0x0a;
pub const CR: u8 = 0x0d;
pub const TAB: u8 = 0x09;
pub const VTAB: u8 = 0x0b;
pub const FORM_FEED: u8 = 0x0c;
pub const SPACE: u8 = 0x20;
pub const DQUOTE: u8 = 0x22;
pub const QUOTE: u8 = 0x27;
pub const PLUS: u8 = 0x2b;
pub const MINUS: u8 = 0x2d;
pub const DOT: u8 = 0x2e;
pub const SLASH: u8 = 0x2f;
pub const ZERO: u8 = 0x30;
pub const COLON: u8 = 0x3a;
pub const LESS: u8 = 0x3c;
pub const EQUALS: u8 = 0x3d;
pub const GREATER: u8 = 0x3e;
pub const LBRACKET: u8 = 0x5b;
pub const BACKSLASH: u8 = 0x5c;
pub const RBRACKET: u8 = 0x5d;
pub const UNDERSCORE: u8 = 0x5f;
pub const LBRACE: u8 = 0x7b;
pub const RBRACE: u8 = 0x7d;
pub const TILDE: u8 = 0x7e;

/// `0`-`9`.
pub open spec fn is_digit(byte: u8) -> bool {
    0x30 <= byte <= 0x39
}

/// `0`-`9`, `A`-`F`, `a`-`f`.
pub open spec fn is_hex_digit(byte: u8) -> bool {
    is_digit(byte) || 0x41 <= byte <= 0x46 || 0x61 <= byte <= 0x66
}

/// `A`-`Z` and `a`-`z`.
pub open spec fn is_alpha(byte: u8) -> bool {
    0x41 <= byte <= 0x5a || 0x61 <= byte <= 0x7a
}

/// What a hexadecimal digit is worth.
pub open spec fn hex_digit_value(byte: u8) -> u32 {
    if is_digit(byte) {
        (byte - 0x30) as u32
    } else if 0x41 <= byte <= 0x46 {
        (byte - 0x41 + 10) as u32
    } else {
        (byte - 0x61 + 10) as u32
    }
}

/// ASCII letters and `_`, and nothing else - a byte above 127 is a token of its own, not part of a name.
pub open spec fn name_start(byte: u8) -> bool {
    is_alpha(byte) || byte == UNDERSCORE
}

pub open spec fn name_part(byte: u8) -> bool {
    is_alpha(byte) || is_digit(byte) || byte == UNDERSCORE
}

/// `\n` and `\r`.
pub open spec fn is_line_break(byte: u8) -> bool {
    byte == LF || byte == CR
}

/// The blanks that separate tokens, apart from line breaks.
pub open spec fn is_blank(byte: u8) -> bool {
    byte == SPACE || byte == TAB || byte == VTAB || byte == FORM_FEED
}

pub fn is_ascii_digit(byte: u8) -> (r: bool)
    ensures
        r == is_digit(byte),
{
    0x30 <= byte && byte <= 0x39
}

pub fn is_ascii_hexdigit(byte: u8) -> (r: bool)
    ensures
        r == is_hex_digit(byte),
{
    is_ascii_digit(byte) || (0x41 <= byte && byte <= 0x46) || (0x61 <= byte && byte <= 0x66)
}

/// The byte must already be a hex digit.
pub fn hex_value(byte: u8) -> (value: u32)
    requires
        is_hex_digit(byte),
    ensures
        value == hex_digit_value(byte),
        value < 16,
{
    if is_ascii_digit(byte) {
        (byte - ZERO) as u32
    } else {
        // Upper case folds onto lower case.
        let lower = if 0x41 <= byte && byte <= 0x5a {
            byte + 32
        } else {
            byte
        };
        (lower - 0x61) as u32 + 10
    }
}

pub fn is_name_start(byte: u8) -> (r: bool)
    ensures
        r == name_start(byte),
{
    (0x61 <= byte && byte <= 0x7a) || (0x41 <= byte && byte <= 0x5a) || byte == UNDERSCORE
}

pub fn is_name_part(byte: u8) -> (r: bool)
    ensures
        r == name_part(byte),
{
    is_name_start(byte) || is_ascii_digit(byte)
}

} // verus!
