//! The keyboard: modifier masks, the keycode-keysym table, and the key and
//! button bindings.

use vstd::prelude::*;
use crate::wm::actions::Arg;
use crate::wm::bar::Click;
use crate::wm::config::{LT_TILE, LT_FLOAT, LT_MONOCLE};
use crate::wm::model::Wm;

verus! {

pub const SHIFT: u16 = 0x0001;
pub const LOCK_M: u16 = 0x0002;
pub const CONTROL: u16 = 0x0004;
pub const MOD1: u16 = 0x0008;
/// The modifier of every binding.
pub const MOD_KEY: u16 = 0x0008;
/// The keysym of the Num Lock key.
pub const XK_NUM_LOCK: u32 = 0xff7f;

/// A modifier state without Lock and Num Lock, and without the button bits.
pub open spec fn clean(numlockmask: u16, mask: u16) -> u16 {
    mask & !(numlockmask | LOCK_M) & (SHIFT | CONTROL | MOD1 | 0x10 | 0x20 | 0x40 | 0x80)
}

/// `clean`, computed.
pub fn cleanmask(numlockmask: u16, mask: u16) -> (r: u16)
    ensures
        r == clean(numlockmask, mask),
{
    mask & !(numlockmask | LOCK_M) & (SHIFT | CONTROL | MOD1 | 0x10 | 0x20 | 0x40 | 0x80)
}

/// Keycode `min + i` lists keysym `ks` in table `t` of `k` keysyms per
/// keycode.
pub open spec fn lists(t: Seq<u32>, k: int, i: int, ks: u32) -> bool {
    exists|j: int| 0 <= j < k && i * k + j < t.len() && #[trigger] entry(t, k, i, j) == ks
}

/// Keysym `j` of keycode `min + i`.
pub open spec fn entry(t: Seq<u32>, k: int, i: int, j: int) -> u32 {
    t[i * k + j]
}

/// What a function does when Verus is asked: the number of keycodes the
/// table describes, rounding a partial last one up.
pub open spec fn chunks(t: Seq<u32>, k: int) -> int {
    if k <= 0 { 0 } else { (t.len() + k - 1) / k }
}


/// Keycode `j` of modifier `i` in a modifier map.
pub open spec fn kc_at(kcs: Seq<u8>, i: int, j: int) -> u8 {
    kcs[i * (kcs.len() / 8) + j]
}

/// The modifier, among the first `i`, that the last one listing keycode
/// `nl` in map `kcs` is; none without one.
pub open spec fn numlock_mask(kcs: Seq<u8>, nl: Option<u8>, i: int) -> u16
    decreases i,
{
    if i <= 0 {
        0
    } else if exists|j: int| 0 <= j < kcs.len() / 8 && Some(#[trigger] kc_at(kcs, i - 1, j)) == nl {
        (1u16 << (i - 1) as u16) as u16
    } else {
        numlock_mask(kcs, nl, i - 1)
    }
}

/// What an action does.
#[derive(Clone, Copy, Debug, PartialEq, Eq, Structural)]
pub enum Action {
    Spawn,
    ToggleBar,
    FocusStack,
    SetMfact,
    Zoom,
    View,
    KillClient,
    SetLayout,
    ToggleFloating,
    Tag,
    FocusMon,
    TagMon,
    ToggleView,
    ToggleTag,
    Quit,
    MoveMouse,
    ResizeMouse,
}

/// A key binding: modifiers, keysym, action and argument.
#[derive(Clone, Copy, Debug, PartialEq, Eq, Structural)]
pub struct KeyDef {
    pub mod_: u16,
    pub keysym: u32,
    pub action: Action,
    pub arg: Arg,
}

/// A mouse binding: where, modifiers, button, action and argument.
#[derive(Clone, Copy, Debug, PartialEq, Eq, Structural)]
pub struct ButtonDef {
    pub click: Click,
    pub mask: u16,
    pub button: u8,
    pub action: Action,
    pub arg: Arg,
}

impl Wm {
    /// The first keycode whose keysyms include `ks`.
    pub fn keysym_to_keycode(&self, ks: u32) -> (r: Option<u8>)
        requires
            self.min_keycode + chunks(self.keysym_table@, self.keysyms_per_keycode as int) <= 256,
        ensures
            match r {
                Some(kc) => exists|i: int| 0 <= i && kc == self.min_keycode + i
                    && lists(self.keysym_table@, self.keysyms_per_keycode as int, i, ks)
                    && forall|i2: int| 0 <= i2 < i ==> !lists(self.keysym_table@, self.keysyms_per_keycode as int, i2, ks),
                None => self.keysyms_per_keycode == 0 || forall|i: int| 0 <= i ==>
                    !lists(self.keysym_table@, self.keysyms_per_keycode as int, i, ks),
            },
    {
        let k = self.keysyms_per_keycode as usize;
        if k == 0 {
            return None;
        }
        let t = &self.keysym_table;
        let n = t.len();
        let mut i: usize = 0;
        let mut start: usize = 0;
        while start < n
            invariant
                k == self.keysyms_per_keycode as usize,
                k > 0,
                t@ == self.keysym_table@,
                n == t@.len(),
                start == i * k,
                forall|i2: int| 0 <= i2 < i ==> !lists(t@, k as int, i2, ks),
                self.min_keycode + chunks(t@, k as int) <= 256,
            decreases n - start,
        {
            let end = if n - start < k { n } else { start + k };
            let mut p: usize = start;
            let mut found = false;
            while p < end
                invariant
                    start <= p <= end <= n,
                    n == t@.len(),
                    end == (if n - start < k { n as int } else { start + k }),
                    start == i * k,
                    found == exists|jj: int| 0 <= jj < p - start && #[trigger] entry(t@, k as int, i as int, jj) == ks,
                decreases end - p,
            {
                if t[p] == ks {
                    found = true;
                    assert(entry(t@, k as int, i as int, p - start) == ks);
                }
                p += 1;
            }
            proof {
                assert(found == lists(t@, k as int, i as int, ks)) by {
                    if lists(t@, k as int, i as int, ks) {
                        let jj = choose|jj: int| 0 <= jj < k && i * k + jj < t@.len() && #[trigger] entry(t@, k as int, i as int, jj) == ks;
                        assert(jj < p - start);
                    }
                }
                assert((t@.len() + k - 1) / (k as int) >= i + 1) by (nonlinear_arith)
                    requires start == i * k, start < t@.len(), k > 0;
            }
            if found {
                assert(self.min_keycode + i < 256);
                let ii = i as u8;
                return Some(self.min_keycode + ii);
            }
            if n - start <= k {
                proof {
                    assert forall|i2: int| 0 <= i2 implies !lists(t@, k as int, i2, ks) by {
                        if i2 > i && lists(t@, k as int, i2, ks) {
                            let jj = choose|jj: int| 0 <= jj < k && i2 * k + jj < t@.len() && #[trigger] entry(t@, k as int, i2, jj) == ks;
                            assert(i2 * k >= i * k + k) by (nonlinear_arith) requires i2 >= i + 1, k > 0;
                        }
                    }
                }
                return None;
            }
            proof {
                assert((i + 1) * k == i * k + k) by (nonlinear_arith);
            }
            i += 1;
            start += k;
        }
        proof {
            assert forall|i2: int| 0 <= i2 implies !lists(t@, k as int, i2, ks) by {
                if i2 >= i && lists(t@, k as int, i2, ks) {
                    let jj = choose|jj: int| 0 <= jj < k && i2 * k + jj < t@.len() && #[trigger] entry(t@, k as int, i2, jj) == ks;
                    assert(i2 * k >= i * k) by (nonlinear_arith) requires i2 >= i, k > 0;
                }
            }
        }
        None
    }

    /// The keysym of keycode `kc` in `group`: 0 when the table holds no
    /// such entry.
    pub fn keycode_to_keysym(&self, kc: u8, group: usize) -> (r: u32)
        ensures
            ({
                let k = self.keysyms_per_keycode as int;
                let off = (kc - self.min_keycode) * k;
                r == if kc < self.min_keycode || off >= self.keysym_table@.len() || group >= k
                    || off + group >= self.keysym_table@.len() { 0 } else { self.keysym_table@[off + group] }
            }),
    {
        if kc < self.min_keycode {
            return 0;
        }
        let k = self.keysyms_per_keycode as usize;
        let d = (kc - self.min_keycode) as usize;
        assert(d * k <= 255 * 255) by (nonlinear_arith) requires d <= 255, k <= 255;
        let off = d * k;
        if off >= self.keysym_table.len() || group >= k || group >= self.keysym_table.len() - off {
            return 0;
        }
        self.keysym_table[off + group]
    }

    /// Finds the Num Lock modifier in the modifier map `keycodes` (eight
    /// modifiers, each with the same number of keycodes), given Num Lock's
    /// keycode `nl` (see `numlock_mask`).
    pub fn update_numlockmask(&mut self, keycodes: &Vec<u8>, nl: Option<u8>)
        ensures
            *final(self) == (Wm { numlockmask: numlock_mask(keycodes@, nl, 8), ..*old(self) }),
    {
        let mut mask: u16 = 0;
        let total = keycodes.len();
        let kpm = total / 8;
        let mut i: usize = 0;
        let mut base: usize = 0;
        while i < 8
            invariant
                i <= 8,
                kpm == keycodes@.len() / 8,
                total == keycodes@.len(),
                base == i * kpm,
                mask == numlock_mask(keycodes@, nl, i as int),
            decreases 8 - i,
        {
            assert(base + kpm <= keycodes@.len()) by (nonlinear_arith)
                requires i < 8, base == i * kpm, kpm == keycodes@.len() / 8;
            let mut j: usize = 0;
            let mut has = false;
            while j < kpm
                invariant
                    j <= kpm,
                    i < 8,
                    kpm == keycodes@.len() / 8,
                    base == i * kpm,
                    total == keycodes@.len(),
                    base + kpm <= total,
                    has == exists|jj: int| 0 <= jj < j && Some(#[trigger] kc_at(keycodes@, i as int, jj)) == nl,
                decreases kpm - j,
            {
                assert(base + j < keycodes@.len());
                if Some(keycodes[base + j]) == nl {
                    has = true;
                    assert(Some(kc_at(keycodes@, i as int, j as int)) == nl);
                }
                j += 1;
            }
            if has {
                mask = 1u16 << (i as u16);
            }
            proof {
                assert((i + 1) * kpm == i * kpm + kpm) by (nonlinear_arith);
            }
            assert(base + kpm <= total);
            i += 1;
            base += kpm;
        }
        self.numlockmask = mask;
    }

    /// Stops the window manager.
    pub fn quit(&mut self)
        ensures
            *final(self) == (Wm { running: false, ..*old(self) }),
    {
        self.running = false;
    }
}

/// The key bindings of `keys` that key `keysym` with modifier state
/// `state` fires, in order.
pub open spec fn fires(keys: Seq<KeyDef>, numlockmask: u16, keysym: u32, state: u16) -> Seq<KeyDef>
    decreases keys.len(),
{
    if keys.len() == 0 {
        Seq::empty()
    } else {
        let r = fires(keys.drop_last(), numlockmask, keysym, state);
        let k = keys.last();
        if k.keysym == keysym && clean(numlockmask, k.mod_) == clean(numlockmask, state) { r.push(k) } else { r }
    }
}

/// The bindings of `keys` that key `keysym` with modifier state `state`
/// fires, in order.
pub fn key_matches(keys: &Vec<KeyDef>, numlockmask: u16, keysym: u32, state: u16) -> (r: Vec<KeyDef>)
    ensures
        r@ == fires(keys@, numlockmask, keysym, state),
{
    let mut r: Vec<KeyDef> = Vec::new();
    let cs = cleanmask(numlockmask, state);
    let mut i: usize = 0;
    while i < keys.len()
        invariant
            i <= keys@.len(),
            cs == clean(numlockmask, state),
            r@ == fires(keys@.take(i as int), numlockmask, keysym, state),
        decreases keys@.len() - i,
    {
        let k = keys[i];
        proof {
            assert(keys@.take(i + 1).drop_last() =~= keys@.take(i as int));
            assert(keys@.take(i + 1).last() == k);
        }
        if k.keysym == keysym && cleanmask(numlockmask, k.mod_) == cs {
            r.push(k);
        }
        i += 1;
    }
    assert(keys@.take(keys@.len() as int) =~= keys@);
    r
}

/// The actions, with their arguments (see `button_arg`), of the mouse
/// bindings of `bs` that button `button` with modifier state `state` fires
/// at `click`, in order.
pub open spec fn button_fires(bs: Seq<ButtonDef>, numlockmask: u16, click: Click, button: u8, state: u16, tag_arg: Arg)
    -> Seq<(Action, Arg)>
    decreases bs.len(),
{
    if bs.len() == 0 {
        Seq::empty()
    } else {
        let r = button_fires(bs.drop_last(), numlockmask, click, button, state, tag_arg);
        let b = bs.last();
        if b.click == click && b.button == button && clean(numlockmask, b.mask) == clean(numlockmask, state) {
            r.push((b.action, button_arg(b, click, tag_arg)))
        } else {
            r
        }
    }
}

/// The argument a fired mouse binding runs with: on the tag bar, a binding
/// without its own argument takes the clicked tag.
pub open spec fn button_arg(b: ButtonDef, click: Click, tag_arg: Arg) -> Arg {
    if click == Click::TagBar && b.arg == Arg::Void { tag_arg } else { b.arg }
}

/// The actions, with their arguments, that button `button` with modifier
/// state `state` fires at `click` (see `button_fires` and `button_arg`).
pub fn button_matches(bs: &Vec<ButtonDef>, numlockmask: u16, click: Click, button: u8, state: u16, tag_arg: Arg)
    -> (r: Vec<(Action, Arg)>)
    ensures
        r@ == button_fires(bs@, numlockmask, click, button, state, tag_arg),
{
    let mut r: Vec<(Action, Arg)> = Vec::new();
    let cs = cleanmask(numlockmask, state);
    let mut i: usize = 0;
    while i < bs.len()
        invariant
            i <= bs@.len(),
            cs == clean(numlockmask, state),
            r@ == button_fires(bs@.take(i as int), numlockmask, click, button, state, tag_arg),
        decreases bs@.len() - i,
    {
        let b = bs[i];
        proof {
            assert(bs@.take(i + 1).drop_last() =~= bs@.take(i as int));
            assert(bs@.take(i + 1).last() == b);
        }
        if b.click == click && b.button == button && cleanmask(numlockmask, b.mask) == cs {
            let arg = if click == Click::TagBar && b.arg == Arg::Void { tag_arg } else { b.arg };
            r.push((b.action, arg));
        }
        i += 1;
    }
    assert(bs@.take(bs@.len() as int) =~= bs@);
    r
}

/// A key binding with the modifier key and `extra` modifiers.
pub open spec fn keyed(extra: u16, keysym: u32, action: Action, arg: Arg) -> KeyDef {
    KeyDef { mod_: MOD_KEY | extra, keysym, action, arg }
}

/// The bindings before the tag keys, in order.
pub open spec fn fixed_keys() -> Seq<KeyDef> {
    seq![
        keyed(0, 0x70, Action::Spawn, Arg::Cmd(0)),
        keyed(SHIFT, 0xff0d, Action::Spawn, Arg::Cmd(1)),
        keyed(SHIFT, 0x6c, Action::Spawn, Arg::Cmd(2)),
        keyed(0, 0xffc6, Action::Spawn, Arg::Cmd(3)),
        keyed(0, 0xffc7, Action::Spawn, Arg::Cmd(4)),
        keyed(0, 0xffc8, Action::Spawn, Arg::Cmd(5)),
        keyed(0, 0xffc9, Action::Spawn, Arg::Cmd(6)),
        keyed(0, 0x62, Action::ToggleBar, Arg::Void),
        keyed(0, 0x6a, Action::FocusStack, Arg::I(1)),
        keyed(0, 0x6b, Action::FocusStack, Arg::I(-1i32)),
        keyed(0, 0x68, Action::SetMfact, Arg::F(0xbd4ccccd)),
        keyed(0, 0x6c, Action::SetMfact, Arg::F(0x3d4ccccd)),
        keyed(0, 0xff0d, Action::Zoom, Arg::Void),
        keyed(0, 0xff09, Action::View, Arg::Void),
        keyed(SHIFT, 0x63, Action::KillClient, Arg::Void),
        keyed(0, 0x74, Action::SetLayout, Arg::Layout(LT_TILE)),
        keyed(0, 0x66, Action::SetLayout, Arg::Layout(LT_FLOAT)),
        keyed(0, 0x6d, Action::SetLayout, Arg::Layout(LT_MONOCLE)),
        keyed(0, 0x20, Action::SetLayout, Arg::Void),
        keyed(SHIFT, 0x20, Action::ToggleFloating, Arg::Void),
        keyed(0, 0x30, Action::View, Arg::U(0xffffffff)),
        keyed(SHIFT, 0x30, Action::Tag, Arg::U(0xffffffff)),
        keyed(0, 0x2c, Action::FocusMon, Arg::I(-1i32)),
        keyed(0, 0x2e, Action::FocusMon, Arg::I(1)),
        keyed(SHIFT, 0x2c, Action::TagMon, Arg::I(-1i32)),
        keyed(SHIFT, 0x2e, Action::TagMon, Arg::I(1)),
    ]
}

/// Binding `k` of tag key `t` (the digit `1 + t`): view, toggle view, tag
/// and toggle tag, on the tag's bit.
pub open spec fn tag_key(t: int, k: int) -> KeyDef {
    let ks = (0x31 + t) as u32;
    let mask = 1u32 << (t as u32);
    if k == 0 {
        keyed(0, ks, Action::View, Arg::U(mask))
    } else if k == 1 {
        keyed(CONTROL, ks, Action::ToggleView, Arg::U(mask))
    } else if k == 2 {
        keyed(SHIFT, ks, Action::Tag, Arg::U(mask))
    } else {
        keyed(CONTROL | SHIFT, ks, Action::ToggleTag, Arg::U(mask))
    }
}

/// The key table: the fixed bindings, four for each of the nine tag keys,
/// then quit.
pub open spec fn key_table(s: Seq<KeyDef>) -> bool {
    &&& s.len() == 63
    &&& forall|j: int| 0 <= j < 26 ==> s[j] == #[trigger] fixed_keys()[j]
    &&& forall|t: int, k: int| 0 <= t < 9 && 0 <= k < 4 ==> s[26 + 4 * t + k] == #[trigger] tag_key(t, k)
    &&& s[62] == keyed(SHIFT, 0x71, Action::Quit, Arg::Void)
}

/// The mouse bindings, in order.
pub open spec fn button_table() -> Seq<ButtonDef> {
    seq![
        ButtonDef { click: Click::LtSymbol, mask: 0, button: 1, action: Action::SetLayout, arg: Arg::Void },
        ButtonDef { click: Click::LtSymbol, mask: 0, button: 3, action: Action::SetLayout, arg: Arg::Layout(LT_MONOCLE) },
        ButtonDef { click: Click::WinTitle, mask: 0, button: 2, action: Action::Zoom, arg: Arg::Void },
        ButtonDef { click: Click::StatusText, mask: 0, button: 2, action: Action::Spawn, arg: Arg::Cmd(1) },
        ButtonDef { click: Click::ClientWin, mask: MOD_KEY, button: 1, action: Action::MoveMouse, arg: Arg::Void },
        ButtonDef { click: Click::ClientWin, mask: MOD_KEY, button: 2, action: Action::ToggleFloating, arg: Arg::Void },
        ButtonDef { click: Click::ClientWin, mask: MOD_KEY, button: 3, action: Action::ResizeMouse, arg: Arg::Void },
        ButtonDef { click: Click::TagBar, mask: 0, button: 1, action: Action::View, arg: Arg::Void },
        ButtonDef { click: Click::TagBar, mask: 0, button: 3, action: Action::ToggleView, arg: Arg::Void },
        ButtonDef { click: Click::TagBar, mask: MOD_KEY, button: 1, action: Action::Tag, arg: Arg::Void },
        ButtonDef { click: Click::TagBar, mask: MOD_KEY, button: 3, action: Action::ToggleTag, arg: Arg::Void },
    ]
}

/// The mouse bindings: the layout symbol switches or picks the monocle
/// layout, the title zooms, the status text opens a terminal, the window
/// moves, floats or resizes with the modifier, and the tag bar views,
/// toggles, tags or toggles tags.
pub fn build_buttons() -> (v: Vec<ButtonDef>)
    ensures
        v@ == button_table(),
{
    let mut v: Vec<ButtonDef> = Vec::new();
    v.push(ButtonDef { click: Click::LtSymbol, mask: 0, button: 1, action: Action::SetLayout, arg: Arg::Void });
    v.push(ButtonDef { click: Click::LtSymbol, mask: 0, button: 3, action: Action::SetLayout, arg: Arg::Layout(LT_MONOCLE) });
    v.push(ButtonDef { click: Click::WinTitle, mask: 0, button: 2, action: Action::Zoom, arg: Arg::Void });
    v.push(ButtonDef { click: Click::StatusText, mask: 0, button: 2, action: Action::Spawn, arg: Arg::Cmd(1) });
    v.push(ButtonDef { click: Click::ClientWin, mask: MOD_KEY, button: 1, action: Action::MoveMouse, arg: Arg::Void });
    v.push(ButtonDef { click: Click::ClientWin, mask: MOD_KEY, button: 2, action: Action::ToggleFloating, arg: Arg::Void });
    v.push(ButtonDef { click: Click::ClientWin, mask: MOD_KEY, button: 3, action: Action::ResizeMouse, arg: Arg::Void });
    v.push(ButtonDef { click: Click::TagBar, mask: 0, button: 1, action: Action::View, arg: Arg::Void });
    v.push(ButtonDef { click: Click::TagBar, mask: 0, button: 3, action: Action::ToggleView, arg: Arg::Void });
    v.push(ButtonDef { click: Click::TagBar, mask: MOD_KEY, button: 1, action: Action::Tag, arg: Arg::Void });
    v.push(ButtonDef { click: Click::TagBar, mask: MOD_KEY, button: 3, action: Action::ToggleTag, arg: Arg::Void });
    v
}

/// A key binding with the modifier key (and `extra` modifiers).
fn bind(extra: u16, keysym: u32, action: Action, arg: Arg) -> (k: KeyDef)
    ensures
        k == (KeyDef { mod_: MOD_KEY | extra, keysym, action, arg }),
{
    KeyDef { mod_: MOD_KEY | extra, keysym, action, arg }
}

/// The key bindings: commands by index in the command table (menu,
/// terminal, lock, pause, volume down and up, next track), the bar,
/// focus and master factor, zoom, the previous tags, closing, layouts,
/// floating, all tags, monitors, then for each tag key view, toggle view,
/// tag and toggle tag, and quit.
pub fn build_keys() -> (v: Vec<KeyDef>)
    ensures
        key_table(v@),
        forall|i: int| 0 <= i < v@.len() ==> (#[trigger] v@[i]).mod_ & MOD_KEY == MOD_KEY,
{
    proof {
        assert forall|e: u16| #[trigger] ((MOD_KEY | e) & MOD_KEY) == MOD_KEY by {
            assert(((0x0008u16 | e) & 0x0008u16) == 0x0008u16) by (bit_vector);
        }
    }
    let mut v: Vec<KeyDef> = Vec::new();
    v.push(bind(0, 0x70, Action::Spawn, Arg::Cmd(0)));
    v.push(bind(SHIFT, 0xff0d, Action::Spawn, Arg::Cmd(1)));
    v.push(bind(SHIFT, 0x6c, Action::Spawn, Arg::Cmd(2)));
    v.push(bind(0, 0xffc6, Action::Spawn, Arg::Cmd(3)));
    v.push(bind(0, 0xffc7, Action::Spawn, Arg::Cmd(4)));
    v.push(bind(0, 0xffc8, Action::Spawn, Arg::Cmd(5)));
    v.push(bind(0, 0xffc9, Action::Spawn, Arg::Cmd(6)));
    v.push(bind(0, 0x62, Action::ToggleBar, Arg::Void));
    v.push(bind(0, 0x6a, Action::FocusStack, Arg::I(1)));
    v.push(bind(0, 0x6b, Action::FocusStack, Arg::I(-1)));
    v.push(bind(0, 0x68, Action::SetMfact, Arg::F(0xbd4ccccd)));
    v.push(bind(0, 0x6c, Action::SetMfact, Arg::F(0x3d4ccccd)));
    v.push(bind(0, 0xff0d, Action::Zoom, Arg::Void));
    v.push(bind(0, 0xff09, Action::View, Arg::Void));
    v.push(bind(SHIFT, 0x63, Action::KillClient, Arg::Void));
    v.push(bind(0, 0x74, Action::SetLayout, Arg::Layout(LT_TILE)));
    v.push(bind(0, 0x66, Action::SetLayout, Arg::Layout(LT_FLOAT)));
    v.push(bind(0, 0x6d, Action::SetLayout, Arg::Layout(LT_MONOCLE)));
    v.push(bind(0, 0x20, Action::SetLayout, Arg::Void));
    v.push(bind(SHIFT, 0x20, Action::ToggleFloating, Arg::Void));
    v.push(bind(0, 0x30, Action::View, Arg::U(0xffffffff)));
    v.push(bind(SHIFT, 0x30, Action::Tag, Arg::U(0xffffffff)));
    v.push(bind(0, 0x2c, Action::FocusMon, Arg::I(-1)));
    v.push(bind(0, 0x2e, Action::FocusMon, Arg::I(1)));
    v.push(bind(SHIFT, 0x2c, Action::TagMon, Arg::I(-1)));
    v.push(bind(SHIFT, 0x2e, Action::TagMon, Arg::I(1)));
    assert(v@ =~= fixed_keys());
    let mut i: u32 = 0;
    while i < 9
        invariant
            i <= 9,
            v@.len() == 26 + 4 * i,
            forall|j: int| 0 <= j < v@.len() ==> (#[trigger] v@[j]).mod_ & MOD_KEY == MOD_KEY,
            forall|j: int| 0 <= j < 26 ==> v@[j] == #[trigger] fixed_keys()[j],
            forall|t: int, k: int| 0 <= t < i && 0 <= k < 4 ==> v@[26 + 4 * t + k] == #[trigger] tag_key(t, k),
        decreases 9 - i,
    {
        let mask: u32 = 1u32 << i;
        let ks: u32 = 0x31 + i;
        v.push(bind(0, ks, Action::View, Arg::U(mask)));
        v.push(bind(CONTROL, ks, Action::ToggleView, Arg::U(mask)));
        v.push(bind(SHIFT, ks, Action::Tag, Arg::U(mask)));
        v.push(bind(CONTROL | SHIFT, ks, Action::ToggleTag, Arg::U(mask)));
        proof {
            assert forall|e: u16| #[trigger] ((MOD_KEY | e) & MOD_KEY) == MOD_KEY by {
                assert(((0x0008u16 | e) & 0x0008u16) == 0x0008u16) by (bit_vector);
            }
        }
        i += 1;
    }
    v.push(bind(SHIFT, 0x71, Action::Quit, Arg::Void));
    proof {
        assert forall|e: u16| #[trigger] ((MOD_KEY | e) & MOD_KEY) == MOD_KEY by {
            assert(((0x0008u16 | e) & 0x0008u16) == 0x0008u16) by (bit_vector);
        }
    }
    v
}

} // verus!
