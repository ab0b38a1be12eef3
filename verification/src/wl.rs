//! The Wayland compositor's window-management logic: per-output monitors
//! with per-tag settings, window data with size hints, rules for new
//! windows, and the layouts, all over plain rectangles.

pub mod windows;
pub mod bar;
pub mod keys;

use vstd::prelude::*;
use crate::wm::config::{Rule, floating_class, TAG_MASK, TAGS_LEN, LT_TILE, LAYOUTS_LEN, SHOWBAR, TOPBAR, BORDERPX, SNAP,
    layout_symbol, symbol_of};
use crate::wm::model::{small, screen};
use crate::wm::geometry::{iabs, rem_trunc, imax, imin, RESIZE_HINTS};
use crate::wm::screens::MFACT_BITS;
use crate::wm::actions::{tag_index, Arg};
use crate::wm::layout::{decimal, fmt_decimal};
use crate::menu::state::div_trunc;
use crate::text::{text_contains, find_sub, matches_at, match_at};
use vstd::string::StringSliceAdditionalSpecFns;

verus! {

/// The bar's height: the font size and two rows.
pub const BAR_HEIGHT: i32 = 16;

/// A rectangle in logical coordinates.
#[derive(Clone, Copy, Debug, PartialEq, Eq, Structural)]
pub struct Rect {
    pub x: i32,
    pub y: i32,
    pub w: i32,
    pub h: i32,
}

/// A rectangle whose position and size are in the `screen` range.
pub open spec fn rect_ok(r: Rect) -> bool {
    screen(r.x as int) && screen(r.y as int) && screen(r.w as int) && screen(r.h as int)
}

/// What the compositor keeps for each window.
#[derive(Clone, Copy, Debug)]
pub struct ClientData {
    pub tags: u32,
    pub monitor: usize,
    pub isfloating: bool,
    pub isfixed: bool,
    pub isurgent: bool,
    pub never_focus: bool,
    pub bw: i32,
    /// The geometry before floating, restored when it floats again.
    pub stored_x: i32,
    pub stored_y: i32,
    pub stored_w: i32,
    pub stored_h: i32,
    /// Size hints.
    pub minw: i32,
    pub minh: i32,
    pub maxw: i32,
    pub maxh: i32,
    pub basew: i32,
    pub baseh: i32,
    pub incw: i32,
    pub inch: i32,
    /// The aspect-ratio bounds, as the bit patterns of `f32` values.
    pub mina: u32,
    pub maxa: u32,
    /// When the window last took the focus.
    pub focus_order: u64,
}

impl Default for ClientData {
    fn default() -> (c: ClientData)
        ensures
            c.tags == 1 && c.monitor == 0,
            !c.isfloating && !c.isfixed && !c.isurgent && !c.never_focus,
            c.bw == BORDERPX,
            c.stored_x == 0 && c.stored_y == 0 && c.stored_w == 0 && c.stored_h == 0,
            c.minw == 0 && c.minh == 0 && c.maxw == 0 && c.maxh == 0,
            c.basew == 0 && c.baseh == 0 && c.incw == 0 && c.inch == 0,
            c.mina == 0 && c.maxa == 0,
            c.focus_order == 0,
    {
        ClientData {
            tags: 1,
            monitor: 0,
            isfloating: false,
            isfixed: false,
            isurgent: false,
            never_focus: false,
            bw: BORDERPX,
            stored_x: 0,
            stored_y: 0,
            stored_w: 0,
            stored_h: 0,
            minw: 0,
            minh: 0,
            maxw: 0,
            maxh: 0,
            basew: 0,
            baseh: 0,
            incw: 0,
            inch: 0,
            mina: 0,
            maxa: 0,
            focus_order: 0,
        }
    }
}

/// The bit pattern of an `f32` that is greater than zero (NaN is not).
pub open spec fn positive_bits(b: u32) -> bool {
    0 < b <= 0x7f800000
}

/// Size hints within the `small` range.
pub open spec fn hints_ok(c: ClientData) -> bool {
    &&& small(c.minw as int) && small(c.minh as int) && small(c.maxw as int) && small(c.maxh as int)
    &&& small(c.basew as int) && small(c.baseh as int) && small(c.incw as int) && small(c.inch as int)
}

/// Whether the base size also serves as the minimum size.
pub open spec fn base_is_min(c: ClientData) -> bool {
    c.basew == c.minw && c.baseh == c.minh
}

/// The size the aspect-ratio step sees: less the base size unless it is
/// the minimum.
pub open spec fn aspect_input(c: ClientData, w: int, h: int) -> (int, int) {
    if base_is_min(c) { (w, h) } else { (w - c.basew, h - c.baseh) }
}

/// Whether the aspect-ratio step applies: both bounds positive and the
/// size it sees positive.
pub open spec fn uses_aspect(c: ClientData, w: int, h: int) -> bool {
    let (w1, h1) = aspect_input(c, w, h);
    positive_bits(c.mina) && positive_bits(c.maxa) && h1 > 0 && w1 > 0
}

/// The size that client `c`'s hints make of `w` by `h` when the
/// aspect-ratio step, if it applies, answers `asp`: the base size taken
/// off (after the aspect step if it is the minimum), rounded toward zero to
/// the increments, the base size put back, then held within the minimum
/// and (where set) maximum sizes.
pub open spec fn hinted_size(c: ClientData, w: int, h: int, asp: (i32, i32)) -> (int, int) {
    let (w1, h1) = aspect_input(c, w, h);
    let (w2, h2) = if uses_aspect(c, w, h) { (asp.0 as int, asp.1 as int) } else { (w1, h1) };
    let w3 = if base_is_min(c) { w2 - c.basew } else { w2 };
    let h3 = if base_is_min(c) { h2 - c.baseh } else { h2 };
    let w4 = if c.incw != 0 { w3 - rem_trunc(w3, c.incw as int) } else { w3 };
    let h4 = if c.inch != 0 { h3 - rem_trunc(h3, c.inch as int) } else { h3 };
    let w5 = imax(w4 + c.basew, c.minw as int);
    let h5 = imax(h4 + c.baseh, c.minh as int);
    let w6 = if c.maxw != 0 { imin(w5, c.maxw as int) } else { w5 };
    let h6 = if c.maxh != 0 { imin(h5, c.maxh as int) } else { h5 };
    (w6, h6)
}

/// The aspect step answers sizes within the `small` range, whatever it is
/// asked.
pub open spec fn aspect_step_ok<A: Fn(u32, u32, i32, i32) -> (i32, i32)>(aspect: &A) -> bool {
    &&& forall|a: u32, b: u32, w: i32, h: i32| aspect.requires((a, b, w, h))
    &&& forall|a: u32, b: u32, w: i32, h: i32, r: (i32, i32)| aspect.ensures((a, b, w, h), r)
        ==> small(r.0 as int) && small(r.1 as int)
}

/// Rust's `a % b` for `small` operands.
fn rem_small(a: i32, b: i32) -> (r: i32)
    requires
        b != 0,
        -0x4000000 <= a <= 0x4000000,
        small(b as int),
    ensures
        r == rem_trunc(a as int, b as int),
        iabs(r as int) <= iabs(a as int),
{
    let bb: i32 = if b < 0 { -b } else { b };
    let q = a / bb;
    assert(q == div_trunc(a as int, bb as int));
    proof {
        if a >= 0 {
            assert(0 <= q * bb <= a) by (nonlinear_arith)
                requires q == (a as int) / (bb as int), a >= 0, bb > 0;
        } else {
            let na: int = -(a as int);
            assert(0 <= (na / (bb as int)) * bb <= na) by (nonlinear_arith)
                requires na > 0, bb > 0;
            assert(q * bb == -((na / (bb as int)) * bb)) by (nonlinear_arith)
                requires q == -(na / (bb as int));
        }
    }
    a - q * bb
}

/// Applies client `c`'s size hints to `w` by `h` (see `hinted_size`);
/// `aspect` performs the aspect-ratio step with `f32` arithmetic on the
/// bounds' bit patterns. Tells whether hints apply, which they always do
/// with `RESIZE_HINTS`.
pub fn apply_size_hints<A: Fn(u32, u32, i32, i32) -> (i32, i32)>(c: &ClientData, w: &mut i32, h: &mut i32,
    aspect: &A) -> (r: bool)
    requires
        hints_ok(*c),
        small(*old(w) as int) && small(*old(h) as int),
        aspect_step_ok(aspect),
    ensures
        r == (RESIZE_HINTS || c.isfloating),
        !r ==> *final(w) == *old(w) && *final(h) == *old(h),
        r ==> exists|asp: (i32, i32)| #![trigger hinted_size(*c, *old(w) as int, *old(h) as int, asp)] {
            let (w1, h1) = aspect_input(*c, *old(w) as int, *old(h) as int);
            &&& (uses_aspect(*c, *old(w) as int, *old(h) as int) ==> aspect.ensures((c.mina, c.maxa, w1 as i32, h1 as i32), asp))
            &&& hinted_size(*c, *old(w) as int, *old(h) as int, asp) == (*final(w) as int, *final(h) as int)
        },
{
    if !RESIZE_HINTS && !c.isfloating {
        return false;
    }
    let ghost w0 = *w as int;
    let ghost h0 = *h as int;
    let baseismin = c.basew == c.minw && c.baseh == c.minh;
    let mut ww = *w;
    let mut hh = *h;
    if !baseismin {
        ww = ww - c.basew;
        hh = hh - c.baseh;
    }
    let mut asp: (i32, i32) = (ww, hh);
    if c.mina > 0 && c.mina <= 0x7f800000 && c.maxa > 0 && c.maxa <= 0x7f800000 && hh > 0 && ww > 0 {
        asp = aspect(c.mina, c.maxa, ww, hh);
        ww = asp.0;
        hh = asp.1;
    }
    if baseismin {
        ww = ww - c.basew;
        hh = hh - c.baseh;
    }
    if c.incw != 0 {
        ww = ww - rem_small(ww, c.incw);
    }
    if c.inch != 0 {
        hh = hh - rem_small(hh, c.inch);
    }
    ww = ww + c.basew;
    hh = hh + c.baseh;
    if ww < c.minw {
        ww = c.minw;
    }
    if hh < c.minh {
        hh = c.minh;
    }
    if c.maxw != 0 && ww > c.maxw {
        ww = c.maxw;
    }
    if c.maxh != 0 && hh > c.maxh {
        hh = c.maxh;
    }
    *w = ww;
    *h = hh;
    assert(hinted_size(*c, w0, h0, asp) == (ww as int, hh as int));
    true
}

/// The window area of a monitor at `g`: less the bar's rows, at the top
/// or the bottom, when the bar shows.
pub open spec fn work_area_of(g: Rect, showbar: bool, topbar: bool, bar_height: int) -> Rect {
    if showbar {
        if topbar {
            Rect { y: (g.y + bar_height) as i32, h: (g.h - bar_height) as i32, ..g }
        } else {
            Rect { h: (g.h - bar_height) as i32, ..g }
        }
    } else {
        g
    }
}

/// The top row of the bar of an output at `g`: its first row, or the
/// bar's height above its bottom.
pub open spec fn bar_top(g: Rect, topbar: bool) -> int {
    if topbar { g.y as int } else { g.y + g.h - BAR_HEIGHT }
}

/// Pair `a` with slot `i` set to `v`.
pub open spec fn set_slot<T>(a: [T; 2], i: usize, v: T) -> [T; 2] {
    if i == 0 { [v, a[1]] } else { [a[0], v] }
}

/// One output's state: its geometry, tags, layouts and per-tag settings.
pub struct Monitor {
    /// Which output this is, as the compositor numbers them.
    pub output: usize,
    pub num: i32,
    /// The output's geometry, and the window area (less the bar).
    pub geometry: Rect,
    pub work_area: Rect,
    pub tagset: [u32; 2],
    pub seltags: usize,
    pub sellt: usize,
    pub lt: [usize; 2],
    /// The master factor, as the bit pattern of an `f32`.
    pub mfact: u32,
    pub showbar: bool,
    pub topbar: bool,
    pub ltsymbol: Vec<u8>,
    /// The tag whose settings are in use (0: all tags) and the one before.
    pub curtag: usize,
    pub prevtag: usize,
    pub lts: Vec<usize>,
    pub mfacts: Vec<u32>,
    pub showbars: Vec<bool>,
    /// When the focused window took the focus, if there is one.
    pub sel_focus_order: Option<u64>,
}

/// The settings of monitor `m` are in range.
pub open spec fn settings_ok(m: Monitor) -> bool {
    &&& m.seltags < 2
    &&& m.sellt < 2
    &&& m.lt[0] < LAYOUTS_LEN
    &&& m.lt[1] < LAYOUTS_LEN
    &&& m.curtag <= TAGS_LEN
    &&& m.prevtag <= TAGS_LEN
    &&& m.lts@.len() == TAGS_LEN + 1
    &&& m.mfacts@.len() == TAGS_LEN + 1
    &&& m.showbars@.len() == TAGS_LEN + 1
    &&& forall|i: int| 0 <= i < m.lts@.len() ==> m.lts@[i] < LAYOUTS_LEN
}

/// `n` copies of `v`.
fn filled<T: Copy>(v: T, n: usize) -> (r: Vec<T>)
    ensures
        r@ == Seq::new(n as nat, |i: int| v),
{
    let mut r: Vec<T> = Vec::new();
    let mut i: usize = 0;
    while i < n
        invariant
            i <= n,
            r@ == Seq::new(i as nat, |j: int| v),
        decreases n - i,
    {
        r.push(v);
        i += 1;
        assert(r@ =~= Seq::new(i as nat, |j: int| v));
    }
    r
}

impl Monitor {
    /// A monitor for `output` at `geometry`, numbered `num`, with the
    /// default settings on every tag and its window area made.
    pub fn new(output: usize, geometry: Rect, num: i32) -> (m: Monitor)
        requires
            rect_ok(geometry),
        ensures
            m.output == output && m.num == num && m.geometry == geometry,
            m.work_area == work_area_of(geometry, SHOWBAR, TOPBAR, BAR_HEIGHT as int),
            m.tagset == [1u32, 1u32] && m.seltags == 0 && m.sellt == 0,
            m.lt == [LT_TILE, LT_TILE],
            m.mfact == MFACT_BITS,
            m.showbar == SHOWBAR && m.topbar == TOPBAR,
            m.ltsymbol@ == layout_symbol(LT_TILE),
            m.curtag == 1 && m.prevtag == 1,
            m.lts@ == Seq::new((TAGS_LEN + 1) as nat, |i: int| LT_TILE),
            m.mfacts@ == Seq::new((TAGS_LEN + 1) as nat, |i: int| MFACT_BITS),
            m.showbars@ == Seq::new((TAGS_LEN + 1) as nat, |i: int| SHOWBAR),
            m.sel_focus_order is None,
            settings_ok(m),
    {
        let mut m = Monitor {
            output,
            num,
            geometry,
            work_area: geometry,
            tagset: [1, 1],
            seltags: 0,
            sellt: 0,
            lt: [LT_TILE, LT_TILE],
            mfact: MFACT_BITS,
            showbar: SHOWBAR,
            topbar: TOPBAR,
            ltsymbol: symbol_of(LT_TILE),
            curtag: 1,
            prevtag: 1,
            lts: filled(LT_TILE, TAGS_LEN + 1),
            mfacts: filled(MFACT_BITS, TAGS_LEN + 1),
            showbars: filled(SHOWBAR, TAGS_LEN + 1),
            sel_focus_order: None,
        };
        m.update_work_area(BAR_HEIGHT);
        m
    }

    /// Remakes the window area: the geometry less the bar's rows, at the
    /// top or the bottom, when the bar shows.
    pub fn update_work_area(&mut self, bar_height: i32)
        requires
            rect_ok(old(self).geometry),
            screen(bar_height as int),
        ensures
            *final(self) == (Monitor { work_area: work_area_of(old(self).geometry, old(self).showbar,
                old(self).topbar, bar_height as int), ..*old(self) }),
    {
        let mut wa = self.geometry;
        if self.showbar {
            if self.topbar {
                wa.y = wa.y + bar_height;
                wa.h = wa.h - bar_height;
            } else {
                wa.h = wa.h - bar_height;
            }
        }
        self.work_area = wa;
    }

    /// The bar's y position: the top row of the output, or the bar's
    /// height above its bottom.
    pub fn bar_y(&self) -> (y: i32)
        requires
            rect_ok(self.geometry),
        ensures
            y == bar_top(self.geometry, self.topbar),
    {
        if self.topbar {
            self.geometry.y
        } else {
            self.geometry.y + self.geometry.h - BAR_HEIGHT
        }
    }

    /// Whether `tags` shares a tag with the shown ones.
    pub fn is_visible_tagset(&self, tags: u32) -> (r: bool)
        requires
            self.seltags < 2,
        ensures
            r == (tags & self.tagset[self.seltags as int] != 0),
    {
        tags & self.tagset[self.seltags] != 0
    }

    /// Selects layout `lt` (the other layout slot unless it is the current
    /// layout), or, without one, switches to the other slot; the current
    /// tag remembers the layout and the symbol follows it.
    pub fn set_layout(&mut self, lt: Option<usize>)
        requires
            settings_ok(*old(self)),
            lt matches Some(i) ==> i < LAYOUTS_LEN,
        ensures
            settings_ok(*final(self)),
            final(self).sellt == (match lt {
                Some(i) => if i == old(self).lt[old(self).sellt as int] { old(self).sellt as int } else { 1 - old(self).sellt },
                None => 1 - old(self).sellt,
            }),
            final(self).lt == (match lt { Some(i) => set_slot(old(self).lt, final(self).sellt, i), None => old(self).lt }),
            final(self).lts@ == old(self).lts@.update(old(self).curtag as int, final(self).lt[final(self).sellt as int]),
            final(self).ltsymbol@ == layout_symbol(final(self).lt[final(self).sellt as int]),
            *final(self) == (Monitor { sellt: final(self).sellt, lt: final(self).lt, lts: final(self).lts,
                ltsymbol: final(self).ltsymbol, ..*old(self) }),
    {
        match lt {
            Some(idx) => {
                if idx != self.lt[self.sellt] {
                    self.sellt = 1 - self.sellt;
                }
                let s = self.sellt;
                self.lt = if s == 0 { [idx, self.lt[1]] } else { [self.lt[0], idx] };
            }
            None => {
                self.sellt = 1 - self.sellt;
            }
        }
        let cur = self.lt[self.sellt];
        let ct = self.curtag;
        self.lts.set(ct, cur);
        self.ltsymbol = symbol_of(cur);
    }
}


/// The compositor's window-management state: its monitors, the selected
/// one, whether it runs, and the counter that orders focus changes.
pub struct Dwm {
    pub monitors: Vec<Monitor>,
    pub selmon: usize,
    pub running: bool,
    pub focus_counter: u64,
}

/// The tags that `view` shows for `arg` on monitor `m`: the given ones
/// (within the tag mask), or without an argument the previously shown
/// ones; none for any other argument.
pub open spec fn view_mask(m: Monitor, arg: Arg) -> Option<u32> {
    match arg {
        Arg::U(u) => Some(u & TAG_MASK),
        Arg::Void => Some(m.tagset[1 - m.seltags]),
        _ => None,
    }
}

/// Monitor `m` after viewing `mask` (not the shown tags): the other tag
/// set slot is selected; unless `mask` is empty it takes `mask`, and the
/// first tag of `mask` (or all tags) brings its layout, master factor and
/// bar; the symbol follows separately.
pub open spec fn viewed(m: Monitor, mask: u32) -> Monitor {
    let s = (1 - m.seltags) as usize;
    if mask == 0 {
        Monitor { seltags: s, ..m }
    } else {
        let t = tag_index(mask, m.curtag, 0);
        Monitor {
            seltags: s,
            tagset: set_slot(m.tagset, s, mask),
            prevtag: m.curtag,
            curtag: t,
            lt: set_slot(m.lt, m.sellt, m.lts@[t as int]),
            mfact: m.mfacts@[t as int],
            showbar: m.showbars@[t as int],
            work_area: work_area_of(m.geometry, m.showbars@[t as int], m.topbar, BAR_HEIGHT as int),
            ..m
        }
    }
}

/// Monitor `f` is `m` with its per-tag layouts, master factors and bars
/// back at their initial values: the tiling layout, the configured factor
/// and the configured bar, for every tag.
pub open spec fn pertag_reset(m: Monitor, f: Monitor) -> bool {
    &&& f.lts@ == Seq::new((TAGS_LEN + 1) as nat, |i: int| LT_TILE)
    &&& f.mfacts@ == Seq::new((TAGS_LEN + 1) as nat, |i: int| MFACT_BITS)
    &&& f.showbars@ == Seq::new((TAGS_LEN + 1) as nat, |i: int| SHOWBAR)
    &&& f == (Monitor { lts: f.lts, mfacts: f.mfacts, showbars: f.showbars, ..m })
}

/// The first monitor, from position `i` on, of output `output`.
pub open spec fn output_monitor(ms: Seq<Monitor>, output: Option<usize>, i: int) -> Option<int>
    decreases ms.len() - i,
{
    if i < 0 || i >= ms.len() || output is None {
        None
    } else if ms[i].output == output->0 {
        Some(i)
    } else {
        output_monitor(ms, output, i + 1)
    }
}

impl Dwm {
    /// The state is usable: a monitor is selected, and every monitor's
    /// settings and geometry are in range.
    pub open spec fn ok(&self) -> bool {
        &&& self.selmon < self.monitors@.len()
        &&& forall|i: int| 0 <= i < self.monitors@.len() ==> settings_ok(#[trigger] self.monitors@[i])
            && rect_ok(self.monitors@[i].geometry)
    }

    /// The next focus-order stamp.
    pub fn next_focus_order(&mut self) -> (r: u64)
        requires
            old(self).focus_counter < u64::MAX,
        ensures
            r == old(self).focus_counter + 1,
            *final(self) == (Dwm { focus_counter: r, ..*old(self) }),
    {
        self.focus_counter = self.focus_counter + 1;
        self.focus_counter
    }

    /// The monitor whose output shows a window with data `c`: `output` is
    /// the output the window's surface is on, if it is on one; the first
    /// monitor of that output is the answer. A window on no monitor's output
    /// keeps its own monitor, held to the last one.
    pub fn monitor_index_for_window(&self, c: &ClientData, output: Option<usize>) -> (r: usize)
        ensures
            r == (match output_monitor(self.monitors@, output, 0) {
                Some(i) => i,
                None => if (c.monitor as int) < self.monitors@.len() - 1 { c.monitor as int }
                    else if self.monitors@.len() == 0 { 0 } else { self.monitors@.len() - 1 },
            }),
    {
        if let Some(o) = output {
            let mut i: usize = 0;
            while i < self.monitors.len()
                invariant
                    i <= self.monitors@.len(),
                    output == Some(o),
                    output_monitor(self.monitors@, output, 0) == output_monitor(self.monitors@, output, i as int),
                decreases self.monitors@.len() - i,
            {
                if self.monitors[i].output == o {
                    return i;
                }
                i += 1;
            }
        }
        let last = if self.monitors.len() == 0 { 0 } else { self.monitors.len() - 1 };
        if c.monitor < last { c.monitor } else { last }
    }

    /// Stops the compositor.
    pub fn quit(&mut self)
        ensures
            *final(self) == (Dwm { running: false, ..*old(self) }),
    {
        self.running = false;
    }

    /// Shows the tags `arg` asks for on the selected monitor (see
    /// `view_mask` and `viewed`); tells whether anything changed, in which
    /// case the monitor is to be arranged. Asking for the tags already
    /// shown puts the monitor's per-tag settings back to their initial
    /// values instead.
    pub fn view(&mut self, arg: Arg) -> (changed: bool)
        requires
            old(self).ok(),
        ensures
            final(self).ok(),
            final(self).selmon == old(self).selmon,
            final(self).monitors@.len() == old(self).monitors@.len(),
            forall|i: int| 0 <= i < old(self).monitors@.len() && i != old(self).selmon ==>
                #[trigger] final(self).monitors@[i] == old(self).monitors@[i],
            ({
                let m = old(self).monitors@[old(self).selmon as int];
                let f = final(self).monitors@[old(self).selmon as int];
                &&& changed == (view_mask(m, arg) matches Some(mask) && mask != m.tagset[m.seltags as int])
                &&& (view_mask(m, arg) is None ==> f == m)
                &&& (view_mask(m, arg) matches Some(mask) && mask == m.tagset[m.seltags as int]) ==> pertag_reset(m, f)
                &&& changed ==> f == (Monitor { ltsymbol: f.ltsymbol, ..viewed(m, view_mask(m, arg)->0) })
                &&& (changed && view_mask(m, arg)->0 != 0) ==> f.ltsymbol@ == layout_symbol(f.lt[f.sellt as int])
            }),
            final(self).running == old(self).running && final(self).focus_counter == old(self).focus_counter,
    {
        let sm = self.selmon;
        let ghost m0 = self.monitors@[sm as int];
        let cur_set = self.monitors[sm].tagset[self.monitors[sm].seltags];
        let mask = match arg {
            Arg::U(u) => u & TAG_MASK,
            Arg::Void => self.monitors[sm].tagset[1 - self.monitors[sm].seltags],
            _ => { return false; }
        };
        if mask == cur_set {
            self.reset_pertag(sm);
            proof {
                assert forall|i: int| 0 <= i < self.monitors@.len() implies settings_ok(#[trigger] self.monitors@[i])
                    && rect_ok(self.monitors@[i].geometry) by {
                    if i != sm {
                        assert(self.monitors@[i] == old(self).monitors@[i]);
                    }
                }
            }
            return false;
        }
        let mut m = self.monitors.remove(sm);
        m.seltags = 1 - m.seltags;
        if mask != 0 {
            let s = m.seltags;
            m.tagset = if s == 0 { [mask, m.tagset[1]] } else { [m.tagset[0], mask] };
            let t = crate::wm::actions::tag_of(mask, m.curtag);
            m.prevtag = m.curtag;
            m.curtag = t;
            let lt = m.lts[t];
            let sl = m.sellt;
            m.lt = if sl == 0 { [lt, m.lt[1]] } else { [m.lt[0], lt] };
            m.mfact = m.mfacts[t];
            m.showbar = m.showbars[t];
            m.ltsymbol = symbol_of(lt);
            m.update_work_area(BAR_HEIGHT);
        }
        self.monitors.insert(sm, m);
        proof {
            assert forall|i: int| 0 <= i < self.monitors@.len() implies settings_ok(#[trigger] self.monitors@[i])
                && rect_ok(self.monitors@[i].geometry) by {
                if i != sm {
                    assert(self.monitors@[i] == old(self).monitors@[i]);
                }
            }
        }
        true
    }

    /// Toggles the tags of `arg` (within the tag mask) in the selected
    /// monitor's shown tags, unless none would be left; tells whether they
    /// changed, in which case the monitor is to be arranged.
    pub fn toggleview(&mut self, arg: Arg) -> (changed: bool)
        requires
            old(self).ok(),
        ensures
            final(self).ok(),
            final(self).selmon == old(self).selmon,
            final(self).monitors@.len() == old(self).monitors@.len(),
            forall|i: int| 0 <= i < old(self).monitors@.len() && i != old(self).selmon ==>
                #[trigger] final(self).monitors@[i] == old(self).monitors@[i],
            ({
                let m = old(self).monitors@[old(self).selmon as int];
                let f = final(self).monitors@[old(self).selmon as int];
                let nt = m.tagset[m.seltags as int] ^ (arg->U_0 & TAG_MASK);
                &&& changed == (arg is U && nt != 0)
                &&& !changed ==> f == m
                &&& changed ==> f == (Monitor { tagset: set_slot(m.tagset, m.seltags, nt), ..m })
            }),
            final(self).running == old(self).running && final(self).focus_counter == old(self).focus_counter,
    {
        let sm = self.selmon;
        let mask = match arg {
            Arg::U(u) => u & TAG_MASK,
            _ => { return false; }
        };
        let st = self.monitors[sm].seltags;
        let nt = self.monitors[sm].tagset[st] ^ mask;
        if nt == 0 {
            return false;
        }
        let mut m = self.monitors.remove(sm);
        m.tagset = if st == 0 { [nt, m.tagset[1]] } else { [m.tagset[0], nt] };
        self.monitors.insert(sm, m);
        proof {
            assert forall|i: int| 0 <= i < self.monitors@.len() implies settings_ok(#[trigger] self.monitors@[i])
                && rect_ok(self.monitors@[i].geometry) by {
                if i != sm {
                    assert(self.monitors@[i] == old(self).monitors@[i]);
                }
            }
        }
        true
    }

    /// Shows or hides the selected monitor's bar; its current tag remembers
    /// the choice and the window area follows. The monitor is then to be
    /// arranged.
    pub fn togglebar(&mut self)
        requires
            old(self).ok(),
        ensures
            final(self).ok(),
            final(self).selmon == old(self).selmon,
            final(self).monitors@.len() == old(self).monitors@.len(),
            forall|i: int| 0 <= i < old(self).monitors@.len() && i != old(self).selmon ==>
                #[trigger] final(self).monitors@[i] == old(self).monitors@[i],
            ({
                let m = old(self).monitors@[old(self).selmon as int];
                let f = final(self).monitors@[old(self).selmon as int];
                &&& f.showbar == !m.showbar
                &&& f.showbars@ == m.showbars@.update(m.curtag as int, !m.showbar)
                &&& f.work_area == work_area_of(m.geometry, !m.showbar, m.topbar, BAR_HEIGHT as int)
                &&& f == (Monitor { showbar: f.showbar, showbars: f.showbars, work_area: f.work_area, ..m })
            }),
            final(self).running == old(self).running && final(self).focus_counter == old(self).focus_counter,
    {
        let sm = self.selmon;
        let mut m = self.monitors.remove(sm);
        m.showbar = !m.showbar;
        let ct = m.curtag;
        let sb = m.showbar;
        m.showbars.set(ct, sb);
        m.update_work_area(BAR_HEIGHT);
        self.monitors.insert(sm, m);
        proof {
            assert forall|i: int| 0 <= i < self.monitors@.len() implies settings_ok(#[trigger] self.monitors@[i])
                && rect_ok(self.monitors@[i].geometry) by {
                if i != sm {
                    assert(self.monitors@[i] == old(self).monitors@[i]);
                }
            }
        }
    }

    /// Selects the layout `arg` names (or, without an argument, the other
    /// layout slot) on the selected monitor (see `Monitor::set_layout`);
    /// tells whether `arg` was one of these, in which case the monitor is
    /// to be arranged.
    pub fn setlayout(&mut self, arg: Arg) -> (changed: bool)
        requires
            old(self).ok(),
            arg matches Arg::Layout(i) ==> i < LAYOUTS_LEN,
        ensures
            final(self).ok(),
            final(self).selmon == old(self).selmon,
            final(self).monitors@.len() == old(self).monitors@.len(),
            forall|i: int| 0 <= i < old(self).monitors@.len() && i != old(self).selmon ==>
                #[trigger] final(self).monitors@[i] == old(self).monitors@[i],
            changed == (arg is Layout || arg is Void),
            !changed ==> final(self).monitors@[old(self).selmon as int] == old(self).monitors@[old(self).selmon as int],
            final(self).running == old(self).running && final(self).focus_counter == old(self).focus_counter,
    {
        let sm = self.selmon;
        let lt = match arg {
            Arg::Layout(i) => Some(i),
            Arg::Void => None,
            _ => { return false; }
        };
        let mut m = self.monitors.remove(sm);
        m.set_layout(lt);
        self.monitors.insert(sm, m);
        proof {
            assert forall|i: int| 0 <= i < self.monitors@.len() implies settings_ok(#[trigger] self.monitors@[i])
                && rect_ok(self.monitors@[i].geometry) by {
                if i != sm {
                    assert(self.monitors@[i] == old(self).monitors@[i]);
                }
            }
        }
        true
    }

    /// Puts monitor `mon`'s per-tag settings back to their initial values
    /// (see `pertag_reset`).
    pub fn reset_pertag(&mut self, mon: usize)
        requires
            (mon as int) < old(self).monitors@.len(),
        ensures
            final(self).monitors@.len() == old(self).monitors@.len(),
            forall|i: int| 0 <= i < old(self).monitors@.len() && i != mon ==>
                #[trigger] final(self).monitors@[i] == old(self).monitors@[i],
            pertag_reset(old(self).monitors@[mon as int], final(self).monitors@[mon as int]),
            final(self).selmon == old(self).selmon && final(self).running == old(self).running
                && final(self).focus_counter == old(self).focus_counter,
    {
        let mut m = self.monitors.remove(mon);
        m.lts = filled(LT_TILE, TAGS_LEN + 1);
        m.mfacts = filled(MFACT_BITS, TAGS_LEN + 1);
        m.showbars = filled(SHOWBAR, TAGS_LEN + 1);
        self.monitors.insert(mon, m);
    }
}

/// Gives a window the tags of `arg` (within the tag mask), unless there
/// are none; tells whether it did, in which case its monitor is to be
/// arranged.
pub fn tag(c: &mut ClientData, arg: Arg) -> (changed: bool)
    ensures
        changed == (arg is U && arg->U_0 & TAG_MASK != 0),
        *final(c) == (if changed { ClientData { tags: arg->U_0 & TAG_MASK, ..*old(c) } } else { *old(c) }),
{
    match arg {
        Arg::U(u) => {
            let mask = u & TAG_MASK;
            if mask == 0 {
                return false;
            }
            c.tags = mask;
            true
        }
        _ => false,
    }
}

/// Toggles the tags of `arg` (within the tag mask) on a window, unless
/// none would be left; tells whether `arg` gave tags, in which case the
/// monitor is to be arranged.
pub fn toggletag(c: &mut ClientData, arg: Arg) -> (arranged: bool)
    ensures
        arranged == arg is U,
        *final(c) == (if arg is U && old(c).tags ^ (arg->U_0 & TAG_MASK) != 0 {
            ClientData { tags: old(c).tags ^ (arg->U_0 & TAG_MASK), ..*old(c) } } else { *old(c) }),
{
    match arg {
        Arg::U(u) => {
            let nt = c.tags ^ (u & TAG_MASK);
            if nt != 0 {
                c.tags = nt;
            }
            true
        }
        _ => false,
    }
}

/// `a` modulo `n`, taken in `0..n`.
pub open spec fn wrap(a: int, n: int) -> int {
    a % n
}

/// The position `dir` steps from `cur` among `len`, wrapping around: the
/// window `focusstack` focuses among the shown ones, or the monitor that
/// `focusmon` and `tagmon` pick.
pub fn cycle_index(cur: usize, dir: i32, len: usize) -> (r: usize)
    requires
        0 < len <= i32::MAX,
        cur < len,
    ensures
        r == wrap(cur + dir, len as int),
        r < len,
{
    let c = cur as i64;
    let n = len as i64;
    let s = c + dir as i64;
    let d = s / n;
    assert(d == div_trunc(s as int, n as int));
    proof {
        if s >= 0 {
            assert(0 <= d * n <= s) by (nonlinear_arith)
                requires d == (s as int) / (n as int), s >= 0, n > 0;
            assert(s - d * n < n) by (nonlinear_arith)
                requires d == (s as int) / (n as int), s >= 0, n > 0;
        } else {
            let ns: int = -(s as int);
            let e: int = ns / (n as int);
            assert(0 <= e * n <= ns && ns - e * n < n) by (nonlinear_arith)
                requires e == ns / (n as int), ns > 0, n > 0;
            assert(d * n == -(e * n)) by (nonlinear_arith)
                requires d == -e;
        }
    }
    let q = s - d * n;
    let r = if q < 0 { q + n } else { q };
    proof {
        let k: int = if q < 0 { d - 1 } else { d as int };
        assert(s as int == k * (n as int) + r as int) by (nonlinear_arith)
            requires q == s - d * n, r == (if q < 0 { q + n } else { q as int }), k == (if q < 0 { d - 1 } else { d as int });
        vstd::arithmetic::div_mod::lemma_fundamental_div_mod_converse(s as int, n as int, k, r as int);
    }
    r as usize
}


/// `a` is within `SNAP` of `b`.
pub open spec fn near(a: int, b: int) -> bool {
    iabs(a - b) < SNAP
}

/// Rectangle `r` snapped to the edges of `mr`: each of its edges within
/// `SNAP` of the matching edge of `mr` moves it onto that edge, the far
/// edges after the near ones.
pub open spec fn snapped(mr: Rect, r: Rect) -> Rect {
    let x1 = if near(r.x as int, mr.x as int) { mr.x } else { r.x };
    let y1 = if near(r.y as int, mr.y as int) { mr.y } else { r.y };
    let x2 = if near(x1 + r.w, mr.x + mr.w) { (mr.x + mr.w - r.w) as i32 } else { x1 };
    let y2 = if near(y1 + r.h, mr.y + mr.h) { (mr.y + mr.h - r.h) as i32 } else { y1 };
    Rect { x: x2, y: y2, ..r }
}

/// Snaps `rect` to the edges of the monitor area `mr` (see `snapped`).
pub fn snap(mr: Rect, rect: &mut Rect)
    requires
        rect_ok(mr),
        rect_ok(*old(rect)),
    ensures
        *final(rect) == snapped(mr, *old(rect)),
{
    let d = rect.x - mr.x;
    if (if d < 0 { -d } else { d }) < SNAP {
        rect.x = mr.x;
    }
    let d = rect.y - mr.y;
    if (if d < 0 { -d } else { d }) < SNAP {
        rect.y = mr.y;
    }
    let rx2 = rect.x + rect.w;
    let mx2 = mr.x + mr.w;
    let d = rx2 - mx2;
    if (if d < 0 { -d } else { d }) < SNAP {
        rect.x = mx2 - rect.w;
    }
    let ry2 = rect.y + rect.h;
    let my2 = mr.y + mr.h;
    let d = ry2 - my2;
    if (if d < 0 { -d } else { d }) < SNAP {
        rect.y = my2 - rect.h;
    }
}

/// Where the tiling layout puts the `i`-th of `n` tiled windows in window
/// area `wa` with a master column `mw` wide: the master fills the column;
/// the others share the rest of the width in rows of equal height, the
/// last one taking what is left; each less its borders.
pub open spec fn tile_rect(wa: Rect, n: int, mw: int, i: int) -> Rect {
    if i == 0 {
        Rect { x: wa.x, y: wa.y, w: (mw - 2 * BORDERPX) as i32, h: (wa.h - 2 * BORDERPX) as i32 }
    } else {
        let he = div_trunc(wa.h as int, n - 1);
        let y = wa.y + (i - 1) * he;
        Rect {
            x: (wa.x + mw) as i32,
            y: y as i32,
            w: (wa.w - mw - 2 * BORDERPX) as i32,
            h: (if i == n - 1 { wa.y + wa.h - y - 2 * BORDERPX } else { he - 2 * BORDERPX }) as i32,
        }
    }
}

/// The master column's width: the whole area for one window, else `split`
/// (the master factor's share of the width).
pub open spec fn master_width(wa: Rect, n: int, split: int) -> int {
    if n == 1 { wa.w as int } else { split }
}

/// Rows of `he` stacked from the first: their offsets stay within the
/// area's height.
pub proof fn lemma_rows(h: int, d: int, k: int)
    requires
        d > 0,
        0 <= k <= d,
    ensures
        iabs(k * div_trunc(h, d)) <= iabs(h),
{
    if h >= 0 {
        assert(0 <= k * (h / d) <= d * (h / d) <= h) by (nonlinear_arith)
            requires h >= 0, d > 0, 0 <= k <= d;
    } else {
        let nh = -h;
        assert(0 <= k * (nh / d) <= d * (nh / d) <= nh) by (nonlinear_arith)
            requires nh > 0, d > 0, 0 <= k <= d;
        assert(k * (-(nh / d)) == -(k * (nh / d))) by (nonlinear_arith);
    }
}

/// The places of `n` tiled windows in window area `wa` (see `tile_rect`
/// and `master_width`); `split` is the master factor's share of the width.
pub fn tile(wa: Rect, n: usize, split: i32) -> (v: Vec<Rect>)
    requires
        rect_ok(wa),
        screen(split as int),
        n <= i32::MAX,
    ensures
        v@.len() == n,
        forall|i: int| 0 <= i < n ==> #[trigger] v@[i] == tile_rect(wa, n as int, master_width(wa, n as int, split as int), i),
{
    let mut v: Vec<Rect> = Vec::new();
    if n == 0 {
        return v;
    }
    let mw = if n == 1 { wa.w } else { split };
    v.push(Rect { x: wa.x, y: wa.y, w: mw - 2 * BORDERPX, h: wa.h - 2 * BORDERPX });
    if n == 1 {
        return v;
    }
    let stack_n = (n - 1) as i32;
    let he = wa.h / stack_n;
    assert(he == div_trunc(wa.h as int, stack_n as int));
    proof {
        lemma_rows(wa.h as int, stack_n as int, 1);
    }
    let mut y = wa.y;
    let mut i: usize = 1;
    while i < n
        invariant
            rect_ok(wa),
            screen(split as int),
            2 <= n <= i32::MAX,
            stack_n == n - 1,
            mw == split,
            he == div_trunc(wa.h as int, stack_n as int),
            iabs(he as int) <= iabs(wa.h as int),
            1 <= i <= n,
            y == wa.y + (i - 1) * he,
            v@.len() == i,
            forall|k: int| 0 <= k < i ==> #[trigger] v@[k] == tile_rect(wa, n as int, mw as int, k),
        decreases n - i,
    {
        proof {
            lemma_rows(wa.h as int, stack_n as int, (i - 1) as int);
            lemma_rows(wa.h as int, stack_n as int, i as int);
        }
        let h = if i == n - 1 { wa.y + wa.h - y - 2 * BORDERPX } else { he - 2 * BORDERPX };
        v.push(Rect { x: wa.x + mw, y, w: wa.w - mw - 2 * BORDERPX, h });
        proof {
            assert(v@[i as int] == tile_rect(wa, n as int, mw as int, i as int));
        }
        proof {
            assert((i as int) * he == ((i - 1) as int) * he + he) by (nonlinear_arith);
        }
        y = y + he;
        i += 1;
    }
    v
}

/// Puts each of `n` tiled windows over the whole window area (less its
/// borders), and, when `shown` windows are visible and there are any,
/// shows their count as `[shown]` in the monitor's layout symbol.
pub fn monocle(m: &mut Monitor, n: usize, shown: usize) -> (v: Vec<Rect>)
    requires
        rect_ok(old(m).work_area),
        shown <= u32::MAX,
    ensures
        v@.len() == n,
        forall|i: int| 0 <= i < n ==> #[trigger] v@[i] == (Rect { x: old(m).work_area.x, y: old(m).work_area.y,
            w: (old(m).work_area.w - 2 * BORDERPX) as i32, h: (old(m).work_area.h - 2 * BORDERPX) as i32 }),
        shown == 0 ==> *final(m) == *old(m),
        shown > 0 ==> final(m).ltsymbol@ == seq![91u8] + decimal(shown as nat) + seq![93u8]
            && *final(m) == (Monitor { ltsymbol: final(m).ltsymbol, ..*old(m) }),
{
    let mut v: Vec<Rect> = Vec::new();
    if shown > 0 {
        let mut sym: Vec<u8> = Vec::new();
        sym.push(91u8);
        let mut digits = fmt_decimal(shown as u32);
        sym.append(&mut digits);
        sym.push(93u8);
        m.ltsymbol = sym;
    }
    let wa = m.work_area;
    let r = Rect { x: wa.x, y: wa.y, w: wa.w - 2 * BORDERPX, h: wa.h - 2 * BORDERPX };
    let mut i: usize = 0;
    while i < n
        invariant
            i <= n,
            v@.len() == i,
            forall|k: int| 0 <= k < i ==> #[trigger] v@[k] == r,
        decreases n - i,
    {
        v.push(r);
        i += 1;
    }
    v
}

/// Rule `r` applies to a window with application id `app_id` and title
/// `title`: its class, if any, is the application id, and its title, if
/// any, occurs in the title.
pub open spec fn rule_applies(r: Rule, app_id: Seq<u8>, title: Seq<u8>) -> bool {
    &&& (r.class matches Some(c) ==> c.spec_bytes() == app_id)
    &&& (r.title matches Some(t) ==> text_contains(title, t.spec_bytes(), false))
}

/// The first of `rules`, from position `i` on, that applies.
pub open spec fn first_rule(rules: Seq<Rule>, i: int, app_id: Seq<u8>, title: Seq<u8>) -> Option<int>
    decreases rules.len() - i,
{
    if i < 0 || i >= rules.len() {
        None
    } else if rule_applies(rules[i], app_id, title) {
        Some(i)
    } else {
        first_rule(rules, i + 1, app_id, title)
    }
}

/// The window data that the rules give a new window on a state whose
/// selected monitor `mn` is one of `nmons`: the first rule that applies
/// sets its floating state, its tags (if it has any) and its monitor (if
/// that exists); otherwise the window takes the monitor and its shown
/// tags. A dialog (a window with a parent) always floats.
pub open spec fn ruled(c: ClientData, rules: Seq<Rule>, app_id: Seq<u8>, title: Seq<u8>, has_parent: bool,
    selmon: usize, mn: Monitor, nmons: int) -> ClientData
{
    let tags = mn.tagset[mn.seltags as int];
    match first_rule(rules, 0, app_id, title) {
        Some(i) => {
            let r = rules[i];
            ClientData {
                tags: if r.tags != 0 { r.tags } else { tags },
                monitor: if r.monitor >= 0 && r.monitor < nmons { r.monitor as usize } else { selmon },
                isfloating: r.isfloating || has_parent,
                ..c
            }
        },
        None => ClientData { tags, monitor: selmon, isfloating: has_parent, ..c },
    }
}

/// Whether two byte strings are equal.
fn same_bytes(a: &[u8], b: &[u8]) -> (r: bool)
    ensures
        r == (a@ == b@),
{
    if a.len() != b.len() {
        return false;
    }
    let r = matches_at(a, b, 0, false);
    proof {
        if r {
            assert forall|j: int| 0 <= j < a@.len() implies a@[j] == b@[j] by {
                assert(crate::text::byte_eq(a@[0 + j], b@[j], false));
            }
            assert(a@ =~= b@);
        } else {
            if a@ == b@ {
                assert(match_at(a@, b@, 0, false));
            }
        }
    }
    r
}

/// Places a new window with application id `app_id` and title `title`,
/// which is a dialog when it has a parent window, by the rules (see
/// `ruled`) and tells the monitor it went to.
pub fn manage_new_window(state: &Dwm, c: &mut ClientData, rules: &Vec<Rule>, app_id: &[u8], title: &[u8],
    has_parent: bool) -> (mon: usize)
    requires
        state.ok(),
    ensures
        *final(c) == ruled(*old(c), rules@, app_id@, title@, has_parent, state.selmon,
            state.monitors@[state.selmon as int], state.monitors@.len() as int),
        mon == final(c).monitor,
        mon < state.monitors@.len(),
{
    let m = state.selmon;
    let mut isfloating = false;
    let mut tags = state.monitors[m].tagset[state.monitors[m].seltags];
    let mut mon = m;
    let mut i: usize = 0;
    while i < rules.len()
        invariant
            state.ok(),
            i <= rules@.len(),
            first_rule(rules@, 0, app_id@, title@) == first_rule(rules@, i as int, app_id@, title@),
            isfloating == false && mon == m && m == state.selmon,
            *c == *old(c),
            tags == state.monitors@[m as int].tagset[state.monitors@[m as int].seltags as int],
        decreases rules@.len() - i,
    {
        let r = &rules[i];
        let class_match = match r.class {
            Some(cl) => same_bytes(cl.as_bytes(), app_id),
            None => true,
        };
        let title_match = match r.title {
            Some(t) => find_sub(title, t.as_bytes(), false),
            None => true,
        };
        if class_match && title_match {
            isfloating = r.isfloating;
            if r.tags != 0 {
                tags = r.tags;
            }
            if r.monitor >= 0 && (r.monitor as usize) < state.monitors.len() {
                mon = r.monitor as usize;
            }
            assert(first_rule(rules@, i as int, app_id@, title@) == Some(i as int));
            c.tags = tags;
            c.monitor = mon;
            c.isfloating = isfloating || has_parent;
            return mon;
        }
        i += 1;
    }
    c.tags = tags;
    c.monitor = mon;
    c.isfloating = has_parent;
    mon
}

/// The window rules: these applications' windows float.
pub fn wl_rules() -> (v: Vec<Rule>)
    ensures
        v@.len() == 6,
        forall|i: int| 0 <= i < v@.len() ==> (#[trigger] v@[i]).isfloating && v@[i].tags == 0
            && v@[i].monitor == -1 && v@[i].instance is None && v@[i].class is Some && v@[i].title is None,
{
    let mut v: Vec<Rule> = Vec::new();
    v.push(floating_class("Gimp", None));
    v.push(floating_class("Kate", None));
    v.push(floating_class("Gedit", None));
    v.push(floating_class("Gvim", None));
    v.push(floating_class("VirtualBox", None));
    v.push(floating_class("nm-connection-editor", None));
    v
}

} // verus!
