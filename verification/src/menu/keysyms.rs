//! Keysym values the menu's key bindings use, and case folding.

use vstd::prelude::*;

verus! {

pub const NO_SYMBOL: u32 = 0x000000;
pub const XK_BACKSPACE: u32 = 0xff08;
pub const XK_TAB: u32 = 0xff09;
pub const XK_RETURN: u32 = 0xff0d;
pub const XK_ESCAPE: u32 = 0xff1b;
pub const XK_DELETE: u32 = 0xffff;
pub const XK_HOME: u32 = 0xff50;
pub const XK_LEFT: u32 = 0xff51;
pub const XK_UP: u32 = 0xff52;
pub const XK_RIGHT: u32 = 0xff53;
pub const XK_DOWN: u32 = 0xff54;
/// Page up.
pub const XK_PRIOR: u32 = 0xff55;
/// Page down.
pub const XK_NEXT: u32 = 0xff56;
pub const XK_END: u32 = 0xff57;
pub const XK_KP_ENTER: u32 = 0xff8d;

pub const XK_A: u32 = 0x0041;
pub const XK_Z: u32 = 0x005a;
pub const XK_LOWER_A: u32 = 0x0061;
pub const XK_LOWER_B: u32 = 0x0062;
pub const XK_LOWER_C: u32 = 0x0063;
pub const XK_LOWER_D: u32 = 0x0064;
pub const XK_LOWER_E: u32 = 0x0065;
pub const XK_LOWER_F: u32 = 0x0066;
pub const XK_LOWER_H: u32 = 0x0068;
pub const XK_LOWER_I: u32 = 0x0069;
pub const XK_LOWER_J: u32 = 0x006a;
pub const XK_LOWER_K: u32 = 0x006b;
pub const XK_LOWER_N: u32 = 0x006e;
pub const XK_LOWER_P: u32 = 0x0070;
pub const XK_LOWER_U: u32 = 0x0075;
pub const XK_LOWER_W: u32 = 0x0077;
pub const XK_LOWER_Y: u32 = 0x0079;

/// Keysyms with a lower-case partner 0x20 above: Latin capitals A-Z and the
/// Latin-1 capitals but for the multiplication sign.
pub open spec fn is_upper_keysym(ks: u32) -> bool {
    (0x41 <= ks <= 0x5a) || (0xc0 <= ks <= 0xd6) || (0xd8 <= ks <= 0xde)
}

/// The lower-case form of a keysym, for case-insensitive comparison.
pub fn to_lower(ks: u32) -> (r: u32)
    ensures
        r == (if is_upper_keysym(ks) { (ks + 0x20) as u32 } else { ks }),
{
    if 0x41 <= ks && ks <= 0x5a {
        ks + 0x20
    } else if 0xc0 <= ks && ks <= 0xd6 {
        ks + 0x20
    } else if 0xd8 <= ks && ks <= 0xde {
        ks + 0x20
    } else {
        ks
    }
}

} // verus!
