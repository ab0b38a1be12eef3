//! Window geometry: the bar's place, size hints, resizing.

use vstd::prelude::*;
use crate::menu::state::div_trunc;
use crate::wm::model::{Aspect, Client, Monitor, Wm, small, req, link, width_of, height_of};
use crate::wm::lists::lemma_chained_frame;

verus! {

/// Size hints are honoured for tiled windows too.
pub const RESIZE_HINTS: bool = true;

/// The absolute value.
pub open spec fn iabs(a: int) -> int {
    if a < 0 { -a } else { a }
}

/// Rust's remainder `a % b`: it takes the sign of `a` and depends only on
/// the magnitude of `b`.
pub open spec fn rem_trunc(a: int, b: int) -> int {
    a - div_trunc(a, iabs(b)) * iabs(b)
}

/// Rounding `a` toward zero to a multiple of `b` keeps it between zero
/// and `a`.
pub proof fn lemma_rem_trunc(a: int, b: int)
    requires
        b != 0,
    ensures
        a >= 0 ==> 0 <= a - rem_trunc(a, b) <= a,
        a < 0 ==> a <= a - rem_trunc(a, b) <= 0,
{
    let bb = iabs(b);
    if a >= 0 {
        assert(0 <= (a / bb) * bb <= a) by (nonlinear_arith)
            requires a >= 0, bb > 0;
    } else {
        let na = -a;
        assert(0 <= (na / bb) * bb <= na) by (nonlinear_arith)
            requires na > 0, bb > 0;
        assert(-(na / bb) * bb == -((na / bb) * bb)) by (nonlinear_arith);
    }
}

/// With hints that are `small` and not negative, `after_aspect` makes
/// sizes between zero and three `small` ranges of `small` answers.
pub proof fn lemma_after_aspect_bounds(c: Client, w: int, h: int)
    requires
        c.sane(),
        small(w) && small(h),
    ensures
        0 <= after_aspect(c, w, h).0 <= 0x3000000,
        0 <= after_aspect(c, w, h).1 <= 0x3000000,
{
    let w1 = if base_is_min(c) { w - c.basew } else { w };
    let h1 = if base_is_min(c) { h - c.baseh } else { h };
    if c.incw != 0 {
        lemma_rem_trunc(w1, c.incw as int);
    }
    if c.inch != 0 {
        lemma_rem_trunc(h1, c.inch as int);
    }
}

/// The smaller and the larger of two integers.
pub open spec fn imin(a: int, b: int) -> int {
    if a < b { a } else { b }
}

pub open spec fn imax(a: int, b: int) -> int {
    if a > b { a } else { b }
}

/// Monitor `mn` with its window area and bar placed for bar height `bh`:
/// the bar takes `bh` rows at the top or bottom when shown, else it is
/// moved above the screen.
pub open spec fn bar_placed(mn: Monitor, bh: int) -> Monitor {
    if mn.showbar {
        Monitor {
            wy: (if mn.topbar { mn.my + bh } else { mn.my as int }) as i32,
            wh: (mn.mh - bh) as i32,
            by: (if mn.topbar { mn.my as int } else { mn.my + mn.mh - bh }) as i32,
            ..mn
        }
    } else {
        Monitor { wy: mn.my, wh: mn.mh, by: (-bh) as i32, ..mn }
    }
}

/// A requested geometry before the size hints: made at least 1 by 1, kept
/// on the screen (`interact`, while the user drags) or on the monitor
/// (otherwise), and made at least as large as the bar is high.
pub open spec fn hints_clamp(c: Client, mn: Monitor, sw: int, sh: int, bh: int,
    x: int, y: int, w: int, h: int, interact: bool) -> (int, int, int, int)
{
    let w1 = imax(w, 1);
    let h1 = imax(h, 1);
    let cw = c.w + 2 * c.bw;
    let ch = c.h + 2 * c.bw;
    let x1 = if interact {
        let xa = if x > sw { sw - cw } else { x };
        if xa + w1 + 2 * c.bw < 0 { 0 } else { xa }
    } else {
        let xa = if x > mn.mx + mn.mw { mn.mx + mn.mw - cw } else { x };
        if xa + w1 + 2 * c.bw < mn.mx { mn.mx as int } else { xa }
    };
    let y1 = if interact {
        let ya = if y > sh { sh - ch } else { y };
        if ya + h1 + 2 * c.bw < 0 { 0 } else { ya }
    } else {
        let ya = if y > mn.my + mn.mh { mn.my + mn.mh - ch } else { y };
        if ya + h1 + 2 * c.bw < mn.my { mn.my as int } else { ya }
    };
    (x1, y1, imax(h1, bh), imax(w1, bh))
}

/// Whether the base size also serves as the minimum size.
pub open spec fn base_is_min(c: Client) -> bool {
    c.basew == c.minw && c.baseh == c.minh
}

/// The size handed to the aspect-ratio step: less the base size unless it
/// is the minimum.
pub open spec fn before_aspect(c: Client, w: int, h: int) -> (int, int) {
    if base_is_min(c) { (w, h) } else { (w - c.basew, h - c.baseh) }
}

/// The size after the aspect-ratio step gave (`w`, `h`): less the base size
/// if it is the minimum, rounded down to the resize increments, plus the
/// base size, and kept within the minimum and maximum sizes.
pub open spec fn after_aspect(c: Client, w: int, h: int) -> (int, int) {
    let w1 = if base_is_min(c) { w - c.basew } else { w };
    let h1 = if base_is_min(c) { h - c.baseh } else { h };
    let w2 = if c.incw != 0 { w1 - rem_trunc(w1, c.incw as int) } else { w1 };
    let h2 = if c.inch != 0 { h1 - rem_trunc(h1, c.inch as int) } else { h1 };
    let w3 = imax(w2 + c.basew, c.minw as int);
    let h3 = imax(h2 + c.baseh, c.minh as int);
    let w4 = if c.maxw != 0 { imin(w3, c.maxw as int) } else { w3 };
    let h4 = if c.maxh != 0 { imin(h3, c.maxh as int) } else { h3 };
    (w4, h4)
}

/// The geometry that the size hints of client `c` on monitor `mn` make of
/// the request (`x`, `y`, `w`, `h`), when the aspect-ratio step, given the
/// client's aspect hint and `before_aspect`'s size, answers `asp`.
pub open spec fn hinted(c: Client, mn: Monitor, sw: int, sh: int, bh: int,
    x: int, y: int, w: int, h: int, interact: bool, asp: (i32, i32)) -> (int, int, int, int)
{
    let (x1, y1, h1, w1) = hints_clamp(c, mn, sw, sh, bh, x, y, w, h, interact);
    if RESIZE_HINTS || c.isfloating {
        let (w2, h2) = after_aspect(c, asp.0 as int, asp.1 as int);
        (x1, y1, w2, h2)
    } else {
        (x1, y1, w1, h1)
    }
}

/// The aspect step `aspect` may answer `r` for client `c`'s request.
pub open spec fn aspect_answer<A: Fn(Aspect, i32, i32) -> (i32, i32)>(aspect: &A, c: Client, mn: Monitor,
    sw: int, sh: int, bh: int, x: int, y: int, w: int, h: int, interact: bool, r: (i32, i32)) -> bool
{
    let (x1, y1, h1, w1) = hints_clamp(c, mn, sw, sh, bh, x, y, w, h, interact);
    let (wa, ha) = before_aspect(c, w1, h1);
    aspect.ensures((c.aspect, wa as i32, ha as i32), r)
}

/// A size that the size hints can make of a request.
pub open spec fn fits(v: int) -> bool {
    -0x8000000 <= v <= 0x8000000
}

/// Client `c` moved to (`x`, `y`) and sized `w` by `h`, its previous
/// geometry kept as the old one.
pub open spec fn moved(c: Client, x: int, y: int, w: int, h: int) -> Client {
    Client { oldx: c.x, x: x as i32, oldy: c.y, y: y as i32, oldw: c.w, w: w as i32, oldh: c.h, h: h as i32, ..c }
}

/// What resizing client `c` (on monitor `mn`) to the request can make of
/// it: the hinted geometry, if it differs from the current one.
pub open spec fn resize_result<A: Fn(Aspect, i32, i32) -> (i32, i32)>(aspect: &A, c: Client, mn: Monitor,
    sw: int, sh: int, bh: int, x: int, y: int, w: int, h: int, interact: bool, after: Client) -> bool
{
    exists|r: (i32, i32)| {
        &&& aspect_answer(aspect, c, mn, sw, sh, bh, x, y, w, h, interact, r)
        &&& ({
            let g = hinted(c, mn, sw, sh, bh, x, y, w, h, interact, r);
            after == if g.0 != c.x || g.1 != c.y || g.2 != c.w || g.3 != c.h {
                moved(c, g.0, g.1, g.2, g.3)
            } else {
                c
            }
        })
    }
}

/// The aspect step answers sizes within the `small` range, whatever it is
/// asked.
pub open spec fn aspect_ok<A: Fn(Aspect, i32, i32) -> (i32, i32)>(aspect: &A) -> bool {
    &&& forall|a: Aspect, w: i32, h: i32| aspect.requires((a, w, h))
    &&& forall|a: Aspect, w: i32, h: i32, r: (i32, i32)| aspect.ensures((a, w, h), r)
        ==> small(r.0 as int) && small(r.1 as int)
}

/// Rust's `a % b`, computed through the divisor's magnitude.
fn rem_i32(a: i32, b: i32) -> (r: i32)
    requires
        b != 0,
        fits(a as int),
        small(b as int),
    ensures
        r == rem_trunc(a as int, b as int),
        iabs(r as int) <= iabs(a as int),
{
    let bb: i32 = if b < 0 { -b } else { b };
    let q = a / bb;
    assert(q == div_trunc(a as int, bb as int));
    proof {
        if a >= 0 {
            assert(0 <= q * bb <= a) by (nonlinear_arith)
                requires q == (a as int) / (bb as int), a >= 0, bb > 0;
        } else {
            let na: int = -(a as int);
            assert(0 <= (na / (bb as int)) * bb <= na) by (nonlinear_arith)
                requires na > 0, bb > 0;
            assert(q * bb == -((na / (bb as int)) * bb)) by (nonlinear_arith)
                requires q == -(na / (bb as int));
        }
    }
    a - q * bb
}

/// `hints_clamp`, computed.
fn clamp_request(cl: &Client, m: &Monitor, sw: i32, sh: i32, bh: i32, x: i32, y: i32, w: i32, h: i32,
    interact: bool) -> (r: (i32, i32, i32, i32))
    requires
        cl.sane(),
        m.sane(),
        small(sw as int) && small(sh as int) && small(bh as int),
        req(x as int) && req(y as int) && req(w as int) && req(h as int),
    ensures
        (r.0 as int, r.1 as int, r.2 as int, r.3 as int) == hints_clamp(*cl, *m, sw as int, sh as int, bh as int,
            x as int, y as int, w as int, h as int, interact),
        req(r.0 as int) && req(r.1 as int) && req(r.2 as int) && req(r.3 as int),
{
    let mut x = x;
    let mut y = y;
    let mut w = w;
    let mut h = h;
    if w < 1 {
        w = 1;
    }
    if h < 1 {
        h = 1;
    }
    if interact {
        if x > sw {
            x = sw - width_of(cl);
        }
        if y > sh {
            y = sh - height_of(cl);
        }
        if x + w + 2 * cl.bw < 0 {
            x = 0;
        }
        if y + h + 2 * cl.bw < 0 {
            y = 0;
        }
    } else {
        if x > m.mx + m.mw {
            x = m.mx + m.mw - width_of(cl);
        }
        if y > m.my + m.mh {
            y = m.my + m.mh - height_of(cl);
        }
        if x + w + 2 * cl.bw < m.mx {
            x = m.mx;
        }
        if y + h + 2 * cl.bw < m.my {
            y = m.my;
        }
    }
    if h < bh {
        h = bh;
    }
    if w < bh {
        w = bh;
    }
    (x, y, h, w)
}

/// `before_aspect`, computed.
fn base_off(cl: &Client, w: i32, h: i32) -> (r: (i32, i32))
    requires
        cl.sane(),
        req(w as int) && req(h as int),
    ensures
        (r.0 as int, r.1 as int) == before_aspect(*cl, w as int, h as int),
{
    if !(cl.basew == cl.minw && cl.baseh == cl.minh) {
        (w - cl.basew, h - cl.baseh)
    } else {
        (w, h)
    }
}

/// `after_aspect`, computed.
fn size_limits(cl: &Client, w: i32, h: i32) -> (r: (i32, i32))
    requires
        cl.sane(),
        small(w as int) && small(h as int),
    ensures
        (r.0 as int, r.1 as int) == after_aspect(*cl, w as int, h as int),
        fits(r.0 as int) && fits(r.1 as int),
{
    let baseismin = cl.basew == cl.minw && cl.baseh == cl.minh;
    let mut w = w;
    let mut h = h;
    if baseismin {
        w = w - cl.basew;
        h = h - cl.baseh;
    }
    if cl.incw != 0 {
        w = w - rem_i32(w, cl.incw);
    }
    if cl.inch != 0 {
        h = h - rem_i32(h, cl.inch);
    }
    w = w + cl.basew;
    h = h + cl.baseh;
    if w < cl.minw {
        w = cl.minw;
    }
    if h < cl.minh {
        h = cl.minh;
    }
    if cl.maxw != 0 && w > cl.maxw {
        w = cl.maxw;
    }
    if cl.maxh != 0 && h > cl.maxh {
        h = cl.maxh;
    }
    (w, h)
}

/// What resizing with a layout's request makes of a client stays near the
/// monitor: its x and y at most a few `small` ranges past the monitor's far
/// edges, not far before its near edges when the requested size is not
/// large, and its size at most five `small` ranges.
pub proof fn lemma_resize_bounds<A: Fn(Aspect, i32, i32) -> (i32, i32)>(aspect: &A, c: Client, mn: Monitor,
    sw: int, sh: int, bh: int, x: int, y: int, w: int, h: int, after: Client)
    requires
        resize_result(aspect, c, mn, sw, sh, bh, x, y, w, h, false, after),
        c.sane(),
        mn.sane(),
        small(sw) && small(sh) && small(bh),
        req(x) && req(y) && req(w) && req(h),
        aspect_ok(aspect),
    ensures
        after.x <= mn.mx + mn.mw + 0x5000000,
        after.y <= mn.my + mn.mh + 0x5000000,
        w <= 0x3000000 ==> after.x >= mn.mx - 0x5000001,
        h <= 0x3000000 ==> after.y >= mn.my - 0x5000001,
        w <= 0xc000000 ==> after.x >= mn.mx - 0xe000001,
        h <= 0xc000000 ==> after.y >= mn.my - 0xe000001,
        0 <= after.w <= 0x3000000,
        0 <= after.h <= 0x3000000,
        after.bw == c.bw,
        after == (Client { x: after.x, y: after.y, w: after.w, h: after.h, oldx: after.oldx, oldy: after.oldy,
            oldw: after.oldw, oldh: after.oldh, ..c }),
        (w <= 0xc000000 && h <= 0xc000000) ==> after.sane(),
{
    let r = choose|r: (i32, i32)| {
        &&& aspect_answer(aspect, c, mn, sw, sh, bh, x, y, w, h, false, r)
        &&& ({
            let g = hinted(c, mn, sw, sh, bh, x, y, w, h, false, r);
            after == if g.0 != c.x || g.1 != c.y || g.2 != c.w || g.3 != c.h {
                moved(c, g.0, g.1, g.2, g.3)
            } else {
                c
            }
        })
    };
    let cl = hints_clamp(c, mn, sw, sh, bh, x, y, w, h, false);
    let (wa, ha) = before_aspect(c, cl.3, cl.2);
    assert(aspect.ensures((c.aspect, wa as i32, ha as i32), r));
    assert(small(r.0 as int) && small(r.1 as int));
    lemma_after_aspect_bounds(c, r.0 as int, r.1 as int);
}

/// What resizing while the user drags makes of a client stays near the
/// screen: sane, when the requested size is not too large.
pub proof fn lemma_resize_bounds_interact<A: Fn(Aspect, i32, i32) -> (i32, i32)>(aspect: &A, c: Client, mn: Monitor,
    sw: int, sh: int, bh: int, x: int, y: int, w: int, h: int, after: Client)
    requires
        resize_result(aspect, c, mn, sw, sh, bh, x, y, w, h, true, after),
        c.sane(),
        mn.sane(),
        small(sw) && small(sh) && small(bh),
        req(x) && req(y) && req(w) && req(h),
        aspect_ok(aspect),
    ensures
        0 <= after.w <= 0x3000000,
        0 <= after.h <= 0x3000000,
        (w <= 0xc000000 && h <= 0xc000000) ==> after.sane(),
{
    let r = choose|r: (i32, i32)| {
        &&& aspect_answer(aspect, c, mn, sw, sh, bh, x, y, w, h, true, r)
        &&& ({
            let g = hinted(c, mn, sw, sh, bh, x, y, w, h, true, r);
            after == if g.0 != c.x || g.1 != c.y || g.2 != c.w || g.3 != c.h {
                moved(c, g.0, g.1, g.2, g.3)
            } else {
                c
            }
        })
    };
    let cl = hints_clamp(c, mn, sw, sh, bh, x, y, w, h, true);
    let (wa, ha) = before_aspect(c, cl.3, cl.2);
    assert(aspect.ensures((c.aspect, wa as i32, ha as i32), r));
    assert(small(r.0 as int) && small(r.1 as int));
    lemma_after_aspect_bounds(c, r.0 as int, r.1 as int);
}

impl Wm {
    /// Places monitor `m`'s bar and window area for the current bar height.
    pub fn update_bar_pos(&mut self, m: usize)
        requires
            (m as int) < old(self).mons@.len(),
            old(self).mons@[m as int].sane(),
            small(old(self).bh as int),
        ensures
            final(self).mons@ == old(self).mons@.update(m as int, bar_placed(old(self).mons@[m as int], old(self).bh as int)),
            *final(self) == (Wm { mons: final(self).mons, ..*old(self) }),
    {
        let bh = self.bh;
        let my = self.mons[m].my;
        let mh = self.mons[m].mh;
        self.mons[m].wy = my;
        self.mons[m].wh = mh;
        if self.mons[m].showbar {
            self.mons[m].wh = mh - bh;
            if self.mons[m].topbar {
                self.mons[m].by = my;
                self.mons[m].wy = my + bh;
            } else {
                self.mons[m].by = my + (mh - bh);
                self.mons[m].wy = my;
            }
        } else {
            self.mons[m].by = -bh;
        }
    }

    /// Changing clients' fields other than their links, monitor and
    /// liveness keeps the invariant.
    pub proof fn lemma_client_fields(&self, o: Wm)
        requires
            o.wf(),
            o.consistent() ==> true,
            self.same_globals(o),
            self.mons@ == o.mons@,
            self.cls@ == o.cls@,
            self.sls@ == o.sls@,
            self.clients@.len() == o.clients@.len(),
            forall|i: int| 0 <= i < o.clients@.len() ==> (#[trigger] self.clients@[i]).next == o.clients@[i].next
                && self.clients@[i].snext == o.clients@[i].snext
                && self.clients@[i].mon == o.clients@[i].mon
                && self.clients@[i].alive == o.clients@[i].alive,
        ensures
            self.wf(),
            o.consistent() ==> self.consistent(),
    {
        assert forall|k: int| 0 <= k < self.ml@.len() implies self.mon_ok(#[trigger] self.ml@[k]) by {
            let mm = self.ml@[k];
            assert(o.mon_ok(mm));
            let cl = o.cl(mm);
            let sl = o.sl(mm);
            assert forall|j: int| 0 <= j < cl.len() implies link(self.clients@[#[trigger] cl[j] as int], false)
                == link(o.clients@[cl[j] as int], false) by {}
            assert forall|j: int| 0 <= j < sl.len() implies link(self.clients@[#[trigger] sl[j] as int], true)
                == link(o.clients@[sl[j] as int], true) by {}
            lemma_chained_frame(o.clients@, self.clients@, self.mons@[mm as int].clients, cl, false);
            lemma_chained_frame(o.clients@, self.clients@, self.mons@[mm as int].stack, sl, true);
        }
        if o.consistent() {
            assert forall|k: int| 0 <= k < self.ml@.len() implies self.mon_consistent(#[trigger] self.ml@[k]) by {
                assert(o.mon_consistent(o.ml@[k]));
            }
        }
    }

    /// Applies client `c`'s size hints to the request (`x`, `y`, `w`, `h`)
    /// (see `hinted`; `aspect` performs the aspect-ratio step) and tells
    /// whether the result differs from the client's geometry.
    pub fn applysizehints<A: Fn(Aspect, i32, i32) -> (i32, i32)>(&self, c: usize, x: &mut i32, y: &mut i32,
        w: &mut i32, h: &mut i32, interact: bool, aspect: &A) -> (changed: bool)
        requires
            (c as int) < self.clients@.len(),
            (self.clients@[c as int].mon as int) < self.mons@.len(),
            self.clients@[c as int].sane(),
            self.mons@[self.clients@[c as int].mon as int].sane(),
            small(self.sw as int) && small(self.sh as int) && small(self.bh as int),
            req(*old(x) as int) && req(*old(y) as int) && req(*old(w) as int) && req(*old(h) as int),
            aspect_ok(aspect),
        ensures
            ({
                let cl = self.clients@[c as int];
                let mn = self.mons@[cl.mon as int];
                exists|r: (i32, i32)| aspect_answer(aspect, cl, mn, self.sw as int, self.sh as int, self.bh as int,
                    *old(x) as int, *old(y) as int, *old(w) as int, *old(h) as int, interact, r)
                    && hinted(cl, mn, self.sw as int, self.sh as int, self.bh as int,
                    *old(x) as int, *old(y) as int, *old(w) as int, *old(h) as int, interact, r)
                    == (*final(x) as int, *final(y) as int, *final(w) as int, *final(h) as int)
            }),
            req(*final(x) as int) && req(*final(y) as int) && fits(*final(w) as int) && fits(*final(h) as int),
            changed == (*final(x) != self.clients@[c as int].x || *final(y) != self.clients@[c as int].y
                || *final(w) != self.clients@[c as int].w || *final(h) != self.clients@[c as int].h),
    {
        let cl = &self.clients[c];
        let m = &self.mons[cl.mon];
        let ghost x0 = *x as int;
        let ghost y0 = *y as int;
        let ghost w0 = *w as int;
        let ghost h0 = *h as int;
        let (nx, ny, nh, nw) = clamp_request(cl, m, self.sw, self.sh, self.bh, *x, *y, *w, *h, interact);
        *x = nx;
        *y = ny;
        *w = nw;
        *h = nh;
        if RESIZE_HINTS || cl.isfloating {
            let (aw, ah) = base_off(cl, *w, *h);
            let r = aspect(cl.aspect, aw, ah);
            assert(aspect_answer(aspect, *cl, *m, self.sw as int, self.sh as int, self.bh as int, x0, y0, w0, h0, interact, r));
            let (fw, fh) = size_limits(cl, r.0, r.1);
            *w = fw;
            *h = fh;
            assert(hinted(*cl, *m, self.sw as int, self.sh as int, self.bh as int, x0, y0, w0, h0, interact, r)
                == (*x as int, *y as int, *w as int, *h as int));
        } else {
            proof {
                let r = choose|r: (i32, i32)| aspect_answer(aspect, *cl, *m, self.sw as int, self.sh as int, self.bh as int,
                    x0, y0, w0, h0, interact, r);
                assert(!(RESIZE_HINTS || cl.isfloating));
            }
        }
        *x != cl.x || *y != cl.y || *w != cl.w || *h != cl.h
    }

    /// Moves and sizes client `c`, keeping its previous geometry.
    pub fn resize_client(&mut self, c: usize, x: i32, y: i32, w: i32, h: i32)
        requires
            old(self).wf(),
            (c as int) < old(self).clients@.len(),
        ensures
            final(self).wf(),
            old(self).consistent() ==> final(self).consistent(),
            *final(self) == (Wm { clients: final(self).clients, ..*old(self) }),
            final(self).clients@ == old(self).clients@.update(c as int,
                moved(old(self).clients@[c as int], x as int, y as int, w as int, h as int)),
    {
        let ghost o = *self;
        let ox = self.clients[c].x;
        let oy = self.clients[c].y;
        let ow = self.clients[c].w;
        let oh = self.clients[c].h;
        self.clients[c].oldx = ox;
        self.clients[c].x = x;
        self.clients[c].oldy = oy;
        self.clients[c].y = y;
        self.clients[c].oldw = ow;
        self.clients[c].w = w;
        self.clients[c].oldh = oh;
        self.clients[c].h = h;
        proof {
            assert(self.clients@ =~= o.clients@.update(c as int, moved(o.clients@[c as int], x as int, y as int, w as int, h as int)));
            self.lemma_client_fields(o);
        }
    }

    /// Resizes client `c` to what its size hints make of the request, when
    /// that differs from its geometry; tells whether it did.
    pub fn resize<A: Fn(Aspect, i32, i32) -> (i32, i32)>(&mut self, c: usize, x: i32, y: i32, w: i32, h: i32,
        interact: bool, aspect: &A) -> (changed: bool)
        requires
            old(self).wf(),
            (c as int) < old(self).clients@.len(),
            (old(self).clients@[c as int].mon as int) < old(self).mons@.len(),
            old(self).clients@[c as int].sane(),
            old(self).mons@[old(self).clients@[c as int].mon as int].sane(),
            small(old(self).sw as int) && small(old(self).sh as int) && small(old(self).bh as int),
            req(x as int) && req(y as int) && req(w as int) && req(h as int),
            aspect_ok(aspect),
        ensures
            final(self).wf(),
            old(self).consistent() ==> final(self).consistent(),
            *final(self) == (Wm { clients: final(self).clients, ..*old(self) }),
            final(self).clients@.len() == old(self).clients@.len(),
            forall|i: int| 0 <= i < old(self).clients@.len() && i != c ==> final(self).clients@[i] == old(self).clients@[i],
            resize_result(aspect, old(self).clients@[c as int], old(self).mons@[old(self).clients@[c as int].mon as int],
                old(self).sw as int, old(self).sh as int, old(self).bh as int, x as int, y as int, w as int, h as int,
                interact, final(self).clients@[c as int]),
            changed == (final(self).clients@[c as int] != old(self).clients@[c as int]),
            req(final(self).clients@[c as int].x as int) && req(final(self).clients@[c as int].y as int),
            (old(self).sane() && w <= 0xc000000 && h <= 0xc000000) ==> final(self).sane(),
            fits(final(self).clients@[c as int].w as int) && fits(final(self).clients@[c as int].h as int),
    {
        let ghost o = *self;
        let mut nx = x;
        let mut ny = y;
        let mut nw = w;
        let mut nh = h;
        let changed = self.applysizehints(c, &mut nx, &mut ny, &mut nw, &mut nh, interact, aspect);
        let ghost o2 = *self;
        if changed {
            self.resize_client(c, nx, ny, nw, nh);
            assert(self.clients@[c as int] != o.clients@[c as int]) by {
                let cl = o.clients@[c as int];
                assert(self.clients@[c as int].x == nx && self.clients@[c as int].y == ny);
                assert(self.clients@[c as int].w == nw && self.clients@[c as int].h == nh);
            }
        }
        proof {
            if o.sane() && w <= 0xc000000 && h <= 0xc000000 {
                let cl = o.clients@[c as int];
                if !interact {
                    lemma_resize_bounds(aspect, cl, o.mons@[cl.mon as int], o.sw as int, o.sh as int, o.bh as int,
                        x as int, y as int, w as int, h as int, self.clients@[c as int]);
                } else {
                    lemma_resize_bounds_interact(aspect, cl, o.mons@[cl.mon as int], o.sw as int, o.sh as int, o.bh as int,
                        x as int, y as int, w as int, h as int, self.clients@[c as int]);
                }
                assert forall|i: int| 0 <= i < self.clients@.len() && self.clients@[i].alive implies (#[trigger] self.clients@[i]).sane() by {
                    if i != c {
                        assert(self.clients@[i] == o.clients@[i]);
                    }
                }
                assert forall|k: int| 0 <= k < self.ml@.len() implies (#[trigger] self.mons@[self.ml@[k] as int]).sane() by {
                    assert(o.mons@[o.ml@[k] as int].sane());
                }
            }
        }
        changed
    }
}

} // verus!
