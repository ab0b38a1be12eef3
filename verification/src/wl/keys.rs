//! The compositor's key bindings and how a key press picks one.

use vstd::prelude::*;
use crate::wm::actions::Arg;
use crate::wm::config::{LT_TILE, LT_FLOAT, LT_MONOCLE};
use crate::wm::keys::{Action, KeyDef, key_table, fixed_keys, tag_key};

verus! {

pub const SHIFT: u16 = 1;
pub const CAPS: u16 = 2;
pub const CTRL: u16 = 4;
pub const ALT: u16 = 8;
pub const NUM: u16 = 16;
pub const LOGO: u16 = 64;
/// The modifier of every binding.
pub const MOD_KEY: u16 = 8;

/// Modifiers without Caps Lock and Num Lock.
pub open spec fn masked(mods: u16) -> u16 {
    mods & !(CAPS | NUM)
}

/// The first binding of `keys` for keysym `s` and modifiers `m`.
pub open spec fn binding_for(keys: Seq<KeyDef>, s: u32, m: u16, i: int) -> Option<KeyDef>
    decreases keys.len() - i,
{
    if i < 0 || i >= keys.len() {
        None
    } else if keys[i].keysym == s && keys[i].mod_ == m {
        Some(keys[i])
    } else {
        binding_for(keys, s, m, i + 1)
    }
}

/// The binding a key press fires: for the first of its keysyms `syms`
/// that some binding has with the pressed modifiers (Caps Lock and Num
/// Lock aside), the first such binding.
pub open spec fn fired(keys: Seq<KeyDef>, mods: u16, syms: Seq<u32>, j: int) -> Option<KeyDef>
    decreases syms.len() - j,
{
    if j < 0 || j >= syms.len() {
        None
    } else {
        match binding_for(keys, syms[j], masked(mods), 0) {
            Some(k) => Some(k),
            None => fired(keys, mods, syms, j + 1),
        }
    }
}

/// The binding that a press with modifiers `mods` and keysyms `syms` fires
/// (see `fired`).
pub fn key_binding(keys: &Vec<KeyDef>, mods: u16, syms: &Vec<u32>) -> (r: Option<KeyDef>)
    ensures
        r == fired(keys@, mods, syms@, 0),
{
    let m = mods & !(CAPS | NUM);
    let mut j: usize = 0;
    while j < syms.len()
        invariant
            j <= syms@.len(),
            m == masked(mods),
            fired(keys@, mods, syms@, 0) == fired(keys@, mods, syms@, j as int),
        decreases syms@.len() - j,
    {
        let s = syms[j];
        let mut i: usize = 0;
        while i < keys.len()
            invariant
                i <= keys@.len(),
                j < syms@.len(),
                s == syms@[j as int],
                m == masked(mods),
                fired(keys@, mods, syms@, 0) == fired(keys@, mods, syms@, j as int),
                binding_for(keys@, s, m, 0) == binding_for(keys@, s, m, i as int),
            decreases keys@.len() - i,
        {
            let k = keys[i];
            if k.keysym == s && k.mod_ == m {
                return Some(k);
            }
            i += 1;
        }
        j += 1;
    }
    None
}

/// A binding with the modifier key and `extra`.
fn with_mod(extra: u16, keysym: u32, action: Action, arg: Arg) -> (k: KeyDef)
    ensures
        k == (KeyDef { mod_: MOD_KEY | extra, keysym, action, arg }),
{
    KeyDef { mod_: MOD_KEY | extra, keysym, action, arg }
}

/// The compositor's key bindings, as for the X11 window manager: commands
/// by index (menu, terminal, lock, pause, volume down and up, next track),
/// bar, focus, master factor, zoom, previous tags, closing, layouts,
/// floating, all tags, monitors, the nine tag keys, and quit.
pub fn wl_keys() -> (v: Vec<KeyDef>)
    ensures
        key_table(v@),
{
    let mut v: Vec<KeyDef> = Vec::new();
    v.push(with_mod(0, 0x70, Action::Spawn, Arg::Cmd(0)));
    v.push(with_mod(SHIFT, 0xff0d, Action::Spawn, Arg::Cmd(1)));
    v.push(with_mod(SHIFT, 0x6c, Action::Spawn, Arg::Cmd(2)));
    v.push(with_mod(0, 0xffc6, Action::Spawn, Arg::Cmd(3)));
    v.push(with_mod(0, 0xffc7, Action::Spawn, Arg::Cmd(4)));
    v.push(with_mod(0, 0xffc8, Action::Spawn, Arg::Cmd(5)));
    v.push(with_mod(0, 0xffc9, Action::Spawn, Arg::Cmd(6)));
    v.push(with_mod(0, 0x62, Action::ToggleBar, Arg::Void));
    v.push(with_mod(0, 0x6a, Action::FocusStack, Arg::I(1)));
    v.push(with_mod(0, 0x6b, Action::FocusStack, Arg::I(-1)));
    v.push(with_mod(0, 0x68, Action::SetMfact, Arg::F(0xbd4ccccd)));
    v.push(with_mod(0, 0x6c, Action::SetMfact, Arg::F(0x3d4ccccd)));
    v.push(with_mod(0, 0xff0d, Action::Zoom, Arg::Void));
    v.push(with_mod(0, 0xff09, Action::View, Arg::Void));
    v.push(with_mod(SHIFT, 0x63, Action::KillClient, Arg::Void));
    v.push(with_mod(0, 0x74, Action::SetLayout, Arg::Layout(LT_TILE)));
    v.push(with_mod(0, 0x66, Action::SetLayout, Arg::Layout(LT_FLOAT)));
    v.push(with_mod(0, 0x6d, Action::SetLayout, Arg::Layout(LT_MONOCLE)));
    v.push(with_mod(0, 0x20, Action::SetLayout, Arg::Void));
    v.push(with_mod(SHIFT, 0x20, Action::ToggleFloating, Arg::Void));
    v.push(with_mod(0, 0x30, Action::View, Arg::U(0xffffffff)));
    v.push(with_mod(SHIFT, 0x30, Action::Tag, Arg::U(0xffffffff)));
    v.push(with_mod(0, 0x2c, Action::FocusMon, Arg::I(-1)));
    v.push(with_mod(0, 0x2e, Action::FocusMon, Arg::I(1)));
    v.push(with_mod(SHIFT, 0x2c, Action::TagMon, Arg::I(-1)));
    v.push(with_mod(SHIFT, 0x2e, Action::TagMon, Arg::I(1)));
    assert(v@ =~= fixed_keys());
    let mut i: u32 = 0;
    while i < 9
        invariant
            i <= 9,
            v@.len() == 26 + 4 * i,
            forall|j: int| 0 <= j < 26 ==> v@[j] == #[trigger] fixed_keys()[j],
            forall|t: int, k: int| 0 <= t < i && 0 <= k < 4 ==> v@[26 + 4 * t + k] == #[trigger] tag_key(t, k),
        decreases 9 - i,
    {
        let mask: u32 = 1u32 << i;
        let ks: u32 = 0x31 + i;
        v.push(with_mod(0, ks, Action::View, Arg::U(mask)));
        v.push(with_mod(CTRL, ks, Action::ToggleView, Arg::U(mask)));
        v.push(with_mod(SHIFT, ks, Action::Tag, Arg::U(mask)));
        v.push(with_mod(CTRL | SHIFT, ks, Action::ToggleTag, Arg::U(mask)));
        i += 1;
    }
    v.push(with_mod(SHIFT, 0x71, Action::Quit, Arg::Void));
    v
}

} // verus!
