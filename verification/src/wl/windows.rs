//! The compositor's windows, in stacking order, as the logic sees them:
//! which are on a monitor, shown, tiled or focused.

use vstd::prelude::*;
use crate::wl::{ClientData, Dwm, Monitor, Rect, rect_ok, settings_ok, monocle};
use crate::wm::config::BORDERPX;
use crate::wm::layout::decimal;
use crate::wm::geometry::imax;

verus! {

/// The windows of `ws` (by position) for which `keep` holds, in order.
pub open spec fn picked(ws: Seq<ClientData>, keep: spec_fn(ClientData) -> bool, n: int) -> Seq<usize>
    decreases n,
{
    if n <= 0 {
        Seq::empty()
    } else {
        let r = picked(ws, keep, n - 1);
        if keep(ws[n - 1]) { r.push((n - 1) as usize) } else { r }
    }
}

/// On monitor `mon`.
pub open spec fn on_mon(mon: usize) -> spec_fn(ClientData) -> bool {
    |c: ClientData| c.monitor == mon
}

/// On monitor `mon`, with a tag of `tagset`.
pub open spec fn shown_on(mon: usize, tagset: u32) -> spec_fn(ClientData) -> bool {
    |c: ClientData| c.monitor == mon && c.tags & tagset != 0
}

/// On monitor `mon`, with a tag of `tagset`, and not floating.
pub open spec fn tiled_on(mon: usize, tagset: u32) -> spec_fn(ClientData) -> bool {
    |c: ClientData| c.monitor == mon && c.tags & tagset != 0 && !c.isfloating
}

/// The windows (by position in `ws`) on monitor `mon`.
pub fn windows_on_monitor(ws: &Vec<ClientData>, mon: usize) -> (r: Vec<usize>)
    ensures
        r@ == picked(ws@, on_mon(mon), ws@.len() as int),
{
    let mut r: Vec<usize> = Vec::new();
    let mut i: usize = 0;
    while i < ws.len()
        invariant
            i <= ws@.len(),
            r@ == picked(ws@, on_mon(mon), i as int),
        decreases ws@.len() - i,
    {
        if ws[i].monitor == mon {
            r.push(i);
        }
        i += 1;
    }
    r
}

/// The windows (by position in `ws`) shown on monitor `mon` of `state`:
/// on it, with one of its shown tags.
pub fn visible_on_monitor(state: &Dwm, ws: &Vec<ClientData>, mon: usize) -> (r: Vec<usize>)
    requires
        (mon as int) < state.monitors@.len(),
        state.monitors@[mon as int].seltags < 2,
    ensures
        r@ == picked(ws@, shown_on(mon, state.monitors@[mon as int].tagset[state.monitors@[mon as int].seltags as int]),
            ws@.len() as int),
{
    let m = &state.monitors[mon];
    let ts = m.tagset[m.seltags];
    let mut r: Vec<usize> = Vec::new();
    let mut i: usize = 0;
    while i < ws.len()
        invariant
            i <= ws@.len(),
            r@ == picked(ws@, shown_on(mon, ts), i as int),
        decreases ws@.len() - i,
    {
        if ws[i].monitor == mon && ws[i].tags & ts != 0 {
            r.push(i);
        }
        i += 1;
    }
    r
}

/// The windows (by position in `ws`) that monitor `mon` of `state` tiles:
/// shown on it and not floating.
pub fn tiled_on_monitor(state: &Dwm, ws: &Vec<ClientData>, mon: usize) -> (r: Vec<usize>)
    requires
        (mon as int) < state.monitors@.len(),
        state.monitors@[mon as int].seltags < 2,
    ensures
        r@ == picked(ws@, tiled_on(mon, state.monitors@[mon as int].tagset[state.monitors@[mon as int].seltags as int]),
            ws@.len() as int),
{
    let m = &state.monitors[mon];
    let ts = m.tagset[m.seltags];
    let mut r: Vec<usize> = Vec::new();
    let mut i: usize = 0;
    while i < ws.len()
        invariant
            i <= ws@.len(),
            r@ == picked(ws@, tiled_on(mon, ts), i as int),
        decreases ws@.len() - i,
    {
        if ws[i].monitor == mon && ws[i].tags & ts != 0 && !ws[i].isfloating {
            r.push(i);
        }
        i += 1;
    }
    r
}

/// The first window of `ws` whose focus stamp is `order`.
pub open spec fn first_stamped(ws: Seq<ClientData>, order: u64, i: int) -> Option<usize>
    decreases ws.len() - i,
{
    if i < 0 || i >= ws.len() {
        None
    } else if ws[i].focus_order == order {
        Some(i as usize)
    } else {
        first_stamped(ws, order, i + 1)
    }
}

/// The focused window: the first one with the stamp the selected monitor
/// recorded, if it recorded one.
pub fn focused_window(state: &Dwm, ws: &Vec<ClientData>) -> (r: Option<usize>)
    ensures
        r == (if (state.selmon as int) < state.monitors@.len() {
            match state.monitors@[state.selmon as int].sel_focus_order {
                Some(o) => first_stamped(ws@, o, 0),
                None => None,
            }
        } else { None }),
{
    if state.selmon >= state.monitors.len() {
        return None;
    }
    let order = match state.monitors[state.selmon].sel_focus_order {
        Some(o) => o,
        None => { return None; }
    };
    let mut i: usize = 0;
    while i < ws.len()
        invariant
            i <= ws@.len(),
            (state.selmon as int) < state.monitors@.len(),
            state.monitors@[state.selmon as int].sel_focus_order == Some(order),
            first_stamped(ws@, order, 0) == first_stamped(ws@, order, i as int),
        decreases ws@.len() - i,
    {
        if ws[i].focus_order == order {
            return Some(i);
        }
        i += 1;
    }
    None
}

/// Floats a window, or, when it floats and is not fixed, tiles it again;
/// a window that now floats gets back its stored place, at least 100 by
/// 100, which is returned.
pub fn togglefloating(c: &mut ClientData) -> (r: Option<Rect>)
    ensures
        final(c).isfloating == (!old(c).isfloating || old(c).isfixed),
        *final(c) == (ClientData { isfloating: final(c).isfloating, ..*old(c) }),
        r == (if final(c).isfloating {
            Some(Rect { x: old(c).stored_x, y: old(c).stored_y,
                w: imax(old(c).stored_w as int, 100) as i32, h: imax(old(c).stored_h as int, 100) as i32 })
        } else { None }),
{
    let now = !c.isfloating || c.isfixed;
    c.isfloating = now;
    if now {
        Some(Rect {
            x: c.stored_x,
            y: c.stored_y,
            w: if c.stored_w > 100 { c.stored_w } else { 100 },
            h: if c.stored_h > 100 { c.stored_h } else { 100 },
        })
    } else {
        None
    }
}

/// The far edges of the monitors, each the largest over them, with 1920
/// by 1080 standing in for an edge at 0.
pub open spec fn bounding(ms: Seq<crate::wl::Monitor>, n: int) -> (int, int)
    decreases n,
{
    if n <= 0 {
        (0, 0)
    } else {
        let (x, y) = bounding(ms, n - 1);
        let g = ms[n - 1].geometry;
        (imax(x, g.x + g.w), imax(y, g.y + g.h))
    }
}

impl Dwm {
    /// The size that holds every output (see `bounding`).
    pub fn outputs_bounding_size(&self) -> (r: (i32, i32))
        requires
            forall|i: int| 0 <= i < self.monitors@.len() ==> rect_ok(#[trigger] self.monitors@[i].geometry),
        ensures
            ({
                let (x, y) = bounding(self.monitors@, self.monitors@.len() as int);
                r == ((if x == 0 { 1920 } else { x }) as i32, (if y == 0 { 1080 } else { y }) as i32)
            }),
    {
        let mut maxx: i32 = 0;
        let mut maxy: i32 = 0;
        let mut i: usize = 0;
        while i < self.monitors.len()
            invariant
                i <= self.monitors@.len(),
                forall|j: int| 0 <= j < self.monitors@.len() ==> rect_ok(#[trigger] self.monitors@[j].geometry),
                (maxx as int, maxy as int) == bounding(self.monitors@, i as int),
                0 <= maxx <= 0x200000 && 0 <= maxy <= 0x200000,
            decreases self.monitors@.len() - i,
        {
            let g = self.monitors[i].geometry;
            let ex = g.x + g.w;
            let ey = g.y + g.h;
            if ex > maxx {
                maxx = ex;
            }
            if ey > maxy {
                maxy = ey;
            }
            i += 1;
        }
        (if maxx == 0 { 1920 } else { maxx }, if maxy == 0 { 1080 } else { maxy })
    }

    /// The first monitor whose geometry holds (`x`, `y`), else the
    /// selected one.
    pub fn monitor_at(&self, x: i32, y: i32) -> (r: usize)
        requires
            forall|i: int| 0 <= i < self.monitors@.len() ==> rect_ok(#[trigger] self.monitors@[i].geometry),
        ensures
            r == (match monitor_holding(self.monitors@, x as int, y as int, 0) {
                Some(i) => i,
                None => self.selmon as int,
            }),
    {
        let mut i: usize = 0;
        while i < self.monitors.len()
            invariant
                i <= self.monitors@.len(),
                forall|j: int| 0 <= j < self.monitors@.len() ==> rect_ok(#[trigger] self.monitors@[j].geometry),
                monitor_holding(self.monitors@, x as int, y as int, 0) == monitor_holding(self.monitors@, x as int, y as int, i as int),
            decreases self.monitors@.len() - i,
        {
            let g = self.monitors[i].geometry;
            if g.x <= x && x < g.x + g.w && g.y <= y && y < g.y + g.h {
                return i;
            }
            i += 1;
        }
        self.selmon
    }
}

/// The first monitor of `ms`, from position `i` on, whose geometry holds
/// the point (`x`, `y`).
pub open spec fn monitor_holding(ms: Seq<crate::wl::Monitor>, x: int, y: int, i: int) -> Option<int>
    decreases ms.len() - i,
{
    if i < 0 || i >= ms.len() {
        None
    } else if holds(ms[i].geometry, x, y) {
        Some(i)
    } else {
        monitor_holding(ms, x, y, i + 1)
    }
}

/// Rectangle `g` holds the point (`x`, `y`).
pub open spec fn holds(g: Rect, x: int, y: int) -> bool {
    g.x <= x < g.x + g.w && g.y <= y < g.y + g.h
}


impl Dwm {
    /// The monocle layout on monitor `mon` for the windows `ws`: each
    /// tiled window (by position in `ws`) goes over the whole window area,
    /// and the layout symbol shows how many windows are visible there.
    pub fn monocle_on(&mut self, ws: &Vec<ClientData>, mon: usize) -> (v: Vec<(usize, Rect)>)
        requires
            old(self).ok(),
            (mon as int) < old(self).monitors@.len(),
            rect_ok(old(self).monitors@[mon as int].work_area),
            ws@.len() <= u32::MAX,
        ensures
            final(self).ok(),
            final(self).selmon == old(self).selmon,
            final(self).monitors@.len() == old(self).monitors@.len(),
            forall|i: int| 0 <= i < old(self).monitors@.len() && i != mon ==>
                #[trigger] final(self).monitors@[i] == old(self).monitors@[i],
            ({
                let m = old(self).monitors@[mon as int];
                let f = final(self).monitors@[mon as int];
                let ts = m.tagset[m.seltags as int];
                let t = picked(ws@, tiled_on(mon, ts), ws@.len() as int);
                let shown = picked(ws@, shown_on(mon, ts), ws@.len() as int).len();
                &&& v@.len() == t.len()
                &&& forall|i: int| 0 <= i < t.len() ==> (#[trigger] v@[i]).0 == t[i]
                    && v@[i].1 == (Rect { x: m.work_area.x, y: m.work_area.y,
                        w: (m.work_area.w - 2 * BORDERPX) as i32, h: (m.work_area.h - 2 * BORDERPX) as i32 })
                &&& shown == 0 ==> f == m
                &&& shown > 0 ==> f.ltsymbol@ == seq![91u8] + decimal(shown) + seq![93u8]
                    && f == (Monitor { ltsymbol: f.ltsymbol, ..m })
            }),
            final(self).running == old(self).running && final(self).focus_counter == old(self).focus_counter,
    {
        let t = tiled_on_monitor(self, ws, mon);
        let s = visible_on_monitor(self, ws, mon);
        proof {
            lemma_picked_len(ws@, tiled_on(mon, self.monitors@[mon as int].tagset[self.monitors@[mon as int].seltags as int]), ws@.len() as int);
            lemma_picked_len(ws@, shown_on(mon, self.monitors@[mon as int].tagset[self.monitors@[mon as int].seltags as int]), ws@.len() as int);
        }
        let mut m = self.monitors.remove(mon);
        let rs = monocle(&mut m, t.len(), s.len());
        self.monitors.insert(mon, m);
        proof {
            assert forall|i: int| 0 <= i < self.monitors@.len() implies settings_ok(#[trigger] self.monitors@[i])
                && rect_ok(self.monitors@[i].geometry) by {
                if i != mon {
                    assert(self.monitors@[i] == old(self).monitors@[i]);
                }
            }
        }
        let mut v: Vec<(usize, Rect)> = Vec::new();
        let mut i: usize = 0;
        while i < t.len()
            invariant
                i <= t@.len(),
                rs@.len() == t@.len(),
                v@.len() == i,
                forall|k: int| 0 <= k < i ==> (#[trigger] v@[k]).0 == t@[k] && v@[k].1 == rs@[k],
            decreases t@.len() - i,
        {
            v.push((t[i], rs[i]));
            i += 1;
        }
        v
    }
}

/// A pick of the first `n` windows has at most `n` entries.
pub proof fn lemma_picked_len(ws: Seq<ClientData>, keep: spec_fn(ClientData) -> bool, n: int)
    ensures
        picked(ws, keep, n).len() <= if n < 0 { 0 } else { n },
    decreases n,
{
    if n > 0 {
        lemma_picked_len(ws, keep, n - 1);
    }
}

} // verus!
