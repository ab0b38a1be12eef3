//! Command-line values: colours.

use vstd::prelude::*;
use vstd::string::StringSliceAdditionalSpecFns;

verus! {

/// The value of a hexadecimal digit, or -1.
pub open spec fn hex_val(c: u8) -> int {
    if 0x30 <= c <= 0x39 {
        c - 0x30
    } else if 0x61 <= c <= 0x66 {
        c - 0x61 + 10
    } else if 0x41 <= c <= 0x46 {
        c - 0x41 + 10
    } else {
        -1
    }
}

/// A two-character hexadecimal field as `u32::from_str_radix` reads it,
/// with 0 for anything it refuses: two digits, or `+` and one digit.
pub open spec fn hex2(a: u8, b: u8) -> int {
    if a == 0x2b {
        if hex_val(b) >= 0 { hex_val(b) } else { 0 }
    } else if hex_val(a) >= 0 && hex_val(b) >= 0 {
        16 * hex_val(a) + hex_val(b)
    } else {
        0
    }
}

/// The text without one leading `#`.
pub open spec fn strip_hash(b: Seq<u8>) -> Seq<u8> {
    if b.len() > 0 && b[0] == 0x23 { b.skip(1) } else { b }
}

/// A UTF-8 continuation byte: not the start of a character.
pub open spec fn is_continuation(b: u8) -> bool {
    0x80 <= b <= 0xbf
}

/// The colour written `#rrggbb` or `rrggbb`, opaque; opaque black for any
/// other length. A field that does not parse counts as 0.
pub open spec fn color_value(b: Seq<u8>) -> u32 {
    let h = strip_hash(b);
    if h.len() != 6 {
        0xff00_0000u32
    } else {
        (0xff00_0000 + hex2(h[0], h[1]) * 0x10000 + hex2(h[2], h[3]) * 0x100 + hex2(h[4], h[5])) as u32
    }
}

/// The three two-byte fields split at character boundaries.
pub open spec fn color_splittable(b: Seq<u8>) -> bool {
    strip_hash(b).len() == 6 ==> !is_continuation(strip_hash(b)[2]) && !is_continuation(strip_hash(b)[4])
}

fn hex_digit(c: u8) -> (r: i32)
    ensures
        r == hex_val(c),
{
    if 0x30 <= c && c <= 0x39 {
        (c - 0x30) as i32
    } else if 0x61 <= c && c <= 0x66 {
        (c - 0x61 + 10) as i32
    } else if 0x41 <= c && c <= 0x46 {
        (c - 0x41 + 10) as i32
    } else {
        -1
    }
}

fn parse_hex2(a: u8, b: u8) -> (r: u32)
    ensures
        r == hex2(a, b),
        r <= 255,
{
    let vb = hex_digit(b);
    if a == 0x2b {
        if vb >= 0 { vb as u32 } else { 0 }
    } else {
        let va = hex_digit(a);
        if va >= 0 && vb >= 0 {
            (16 * va + vb) as u32
        } else {
            0
        }
    }
}

/// Parses a colour `#rrggbb` (the `#` optional) into opaque ARGB.
pub fn parse_color(s: &str) -> (r: u32)
    requires
        color_splittable(s.spec_bytes()),
    ensures
        r == color_value(s.spec_bytes()),
{
    let bytes = s.as_bytes();
    let start: usize = if bytes.len() > 0 && bytes[0] == 0x23 { 1 } else { 0 };
    assert(strip_hash(bytes@) =~= bytes@.skip(start as int));
    if bytes.len() - start != 6 {
        return 0xff000000;
    }
    let r = parse_hex2(bytes[start], bytes[start + 1]);
    let g = parse_hex2(bytes[start + 2], bytes[start + 3]);
    let b = parse_hex2(bytes[start + 4], bytes[start + 5]);
    let v = 0xff000000u32 | (r << 16u32) | (g << 8u32) | b;
    assert(v == 0xff00_0000 + r * 0x10000 + g * 0x100 + b) by (bit_vector)
        requires
            v == 0xff000000u32 | (r << 16u32) | (g << 8u32) | b,
            r <= 255,
            g <= 255,
            b <= 255,
    ;
    v
}

} // verus!
