//! Hex color text: parsing `#RRGGBB` strings into 24-bit RGB values and
//! rendering values back as lowercase hex strings.

use vstd::prelude::*;
use vstd::string::StrSliceExecFns;
use crate::text::push_char;

verus! {

/// A 24-bit RGB value fits below this bound.
pub open spec fn rgb24(v: int) -> bool {
    0 <= v < 0x1000000
}

pub open spec fn is_hex_digit(c: char) -> bool {
    ('0' <= c && c <= '9') || ('a' <= c && c <= 'f') || ('A' <= c && c <= 'F')
}

/// The numeric value of a hex digit (meaningful only when `is_hex_digit`).
pub open spec fn hex_digit_val(c: char) -> int {
    if '0' <= c && c <= '9' {
        (c as u32) - 48
    } else if 'a' <= c && c <= 'f' {
        (c as u32) - 87
    } else {
        (c as u32) - 55
    }
}

/// A well-formed color string: `#` followed by exactly six hex digits,
/// in either case.
pub open spec fn valid_hex_color(s: Seq<char>) -> bool {
    &&& s.len() == 7
    &&& s[0] == '#'
    &&& forall|i: int| 1 <= i < 7 ==> is_hex_digit(#[trigger] s[i])
}

/// The 24-bit value denoted by a well-formed color string.
pub open spec fn hex_color_val(s: Seq<char>) -> int {
    hex_digit_val(s[1]) * 0x100000 + hex_digit_val(s[2]) * 0x10000 + hex_digit_val(s[3]) * 0x1000
        + hex_digit_val(s[4]) * 0x100 + hex_digit_val(s[5]) * 0x10 + hex_digit_val(s[6])
}

fn hex_digit(c: char) -> (r: Option<u32>)
    ensures
        r is Some <==> is_hex_digit(c),
        r is Some ==> r == Some(hex_digit_val(c) as u32),
{
    let u = c as u32;
    if 48 <= u && u <= 57 {
        Some(u - 48)
    } else if 97 <= u && u <= 102 {
        Some(u - 87)
    } else if 65 <= u && u <= 70 {
        Some(u - 55)
    } else {
        None
    }
}

/// Parse a `#RRGGBB` color string; `None` exactly on malformed input.
pub fn parse_hex_color(s: &str) -> (r: Option<u32>)
    ensures
        r is Some <==> valid_hex_color(s@),
        valid_hex_color(s@) ==> r == Some(hex_color_val(s@) as u32),
        r is Some ==> rgb24(r.unwrap() as int),
{
    let n = s.unicode_len();
    if n != 7 {
        return None;
    }
    if s.get_char(0) != '#' {
        return None;
    }
    let mut v: u32 = 0;
    let mut i: usize = 1;
    while i < 7
        invariant
            n == s@.len(),
            n == 7,
            s@[0] == '#',
            1 <= i <= 7,
            forall|j: int| 1 <= j < i ==> is_hex_digit(#[trigger] s@[j]),
            v < 0x10 * pow16(i - 1),
            v == partial_val(s@, i as int),
        decreases 7 - i,
    {
        let c = s.get_char(i);
        match hex_digit(c) {
            None => {
                return None;
            },
            Some(d) => {
                proof {
                    lemma_pow16_bounds();
                }
                v = v * 16 + d;
            },
        }
        i = i + 1;
    }
    proof {
        assert(partial_val(s@, 7) == hex_color_val(s@)) by {
            reveal_with_fuel(partial_val, 8);
        }
    }
    Some(v)
}

/// The value of the first `i - 1` digits of the color string.
pub open spec fn partial_val(s: Seq<char>, i: int) -> int
    decreases i,
{
    if i <= 1 {
        0
    } else {
        partial_val(s, i - 1) * 16 + hex_digit_val(s[i - 1])
    }
}

spec fn pow16(k: int) -> int
    decreases k,
{
    if k <= 0 {
        1
    } else {
        16 * pow16(k - 1)
    }
}

proof fn lemma_pow16_bounds()
    ensures
        pow16(0) == 1,
        pow16(1) == 16,
        pow16(2) == 0x100,
        pow16(3) == 0x1000,
        pow16(4) == 0x10000,
        pow16(5) == 0x100000,
        pow16(6) == 0x1000000,
{
}

/// The lowercase hex digit character for a value below sixteen.
pub open spec fn hex_char_of(d: int) -> char {
    if d < 10 {
        ((d + 48) as u8) as char
    } else {
        ((d + 87) as u8) as char
    }
}

/// The lowercase `#rrggbb` rendering of a 24-bit value.
pub open spec fn hex_seq(v: int) -> Seq<char> {
    seq![
        '#',
        hex_char_of(v / 0x100000 % 16),
        hex_char_of(v / 0x10000 % 16),
        hex_char_of(v / 0x1000 % 16),
        hex_char_of(v / 0x100 % 16),
        hex_char_of(v / 0x10 % 16),
        hex_char_of(v % 16),
    ]
}

fn hex_char(d: u32) -> (r: char)
    requires
        d < 16,
    ensures
        r == hex_char_of(d as int),
{
    if d < 10 {
        ((d + 48) as u8) as char
    } else {
        ((d + 87) as u8) as char
    }
}

/// Render a 24-bit RGB value as its lowercase `#rrggbb` string.
pub fn hex_string(v: u32) -> (r: String)
    requires
        rgb24(v as int),
    ensures
        r@ == hex_seq(v as int),
{
    let mut r = String::new();
    push_char(&mut r, '#');
    push_char(&mut r, hex_char(v / 0x100000 % 16));
    push_char(&mut r, hex_char(v / 0x10000 % 16));
    push_char(&mut r, hex_char(v / 0x1000 % 16));
    push_char(&mut r, hex_char(v / 0x100 % 16));
    push_char(&mut r, hex_char(v / 0x10 % 16));
    push_char(&mut r, hex_char(v % 16));
    proof {
        assert(r@ =~= hex_seq(v as int));
    }
    r
}

} // verus!
