//! Moving and resizing the selected client with the mouse: each pointer
//! motion is one step, decided here; the pointer grab and the event loop
//! stay with the caller.

use vstd::prelude::*;
use crate::wm::config::{SNAP, arranges, has_arrange};
use crate::wm::model::{Aspect, Client, Monitor, Wm, req, pos_ok, width_of, height_of, small};
use crate::wm::geometry::{iabs, aspect_ok, resize_result};
use crate::wm::actions::Relayout;
use crate::wm::focus::{FocusChange, managed};
use crate::wm::lists::in_window_area;
use crate::menu::state::div_trunc;

verus! {

/// A coordinate `p` of a window `len` long, snapped to the window area
/// running from `lo` for `span`: onto its near edge when within `SNAP` of
/// it, else onto its far edge when within `SNAP` of that.
pub open spec fn snap_to(lo: int, span: int, p: int, len: int) -> int {
    if iabs(lo - p) < SNAP {
        lo
    } else if iabs((lo + span) - (p + len)) < SNAP {
        lo + span - len
    } else {
        p
    }
}

/// `snap_to`, computed.
fn snap_coord(lo: i32, span: i32, p: i32, len: i32) -> (r: i32)
    requires
        small(lo as int) && small(span as int) && req(p as int) && -0x6000000 <= len <= 0x6000000,
    ensures
        r == snap_to(lo as int, span as int, p as int, len as int),
        req(r as int),
{
    let d = lo - p;
    if (if d < 0 { -d } else { d }) < SNAP {
        return lo;
    }
    let e = (lo + span) - (p + len);
    if (if e < 0 { -e } else { e }) < SNAP {
        return lo + span - len;
    }
    p
}

/// Where dragging moves client `cl` of monitor `mn`, which was at
/// (`ocx`, `ocy`) when the drag began `dx` by `dy` ago: moved by that
/// much, then snapped to the window area's edges (see `snap_to`).
pub fn drag_point(mn: &Monitor, cl: &Client, ocx: i32, ocy: i32, dx: i32, dy: i32) -> (r: (i32, i32))
    requires
        mn.sane(),
        cl.sane(),
        pos_ok(ocx as int) && pos_ok(ocy as int),
        -0x20000 <= dx <= 0x20000 && -0x20000 <= dy <= 0x20000,
    ensures
        r.0 == snap_to(mn.wx as int, mn.ww as int, ocx + dx, cl.w + 2 * cl.bw),
        r.1 == snap_to(mn.wy as int, mn.wh as int, ocy + dy, cl.h + 2 * cl.bw),
        req(r.0 as int) && req(r.1 as int),
{
    let nx = ocx + dx;
    let ny = ocy + dy;
    let cw = width_of(cl);
    let ch = height_of(cl);
    (snap_coord(mn.wx, mn.ww, nx, cw), snap_coord(mn.wy, mn.wh, ny, ch))
}

/// The size that dragging the bottom-right corner of a window at
/// (`ocx`, `ocy`) with border `bw` to (`rx`, `ry`) asks for: up to the
/// pointer, at least 1 by 1.
pub fn drag_size(ocx: i32, ocy: i32, bw: i32, rx: i32, ry: i32) -> (r: (i32, i32))
    requires
        pos_ok(ocx as int) && pos_ok(ocy as int) && small(bw as int),
        -0x20000 <= rx <= 0x20000 && -0x20000 <= ry <= 0x20000,
    ensures
        r.0 == (if rx - ocx - 2 * bw + 1 > 1 { rx - ocx - 2 * bw + 1 } else { 1 }),
        r.1 == (if ry - ocy - 2 * bw + 1 > 1 { ry - ocy - 2 * bw + 1 } else { 1 }),
{
    let nw = rx - ocx - 2 * bw + 1;
    let nh = ry - ocy - 2 * bw + 1;
    (if nw > 1 { nw } else { 1 }, if nh > 1 { nh } else { 1 })
}

/// The layout monitor `mn` uses.
pub open spec fn layout_of(mn: Monitor) -> usize {
    mn.lt[mn.sellt as int]
}

impl Wm {
    /// One step of a drag that asks to put the selected client `c` of the
    /// selected monitor `m` at (`nx`, `ny`): a tiled client under a
    /// tiling layout pulled more than `SNAP` away starts floating (unless
    /// it is fixed); a floating client, or any under the floating layout,
    /// is then resized there at its size. Returns the relayout the
    /// floating change needs.
    #[verifier::rlimit(100)]
    #[verifier::spinoff_prover]
    pub fn move_step<A: Fn(Aspect, i32, i32) -> (i32, i32)>(&mut self, m: usize, c: usize, nx: i32, ny: i32,
        aspect: &A) -> (r: Relayout)
        requires
            old(self).inv(),
            old(self).sane(),
            old(self).selmon == Some(m),
            old(self).mons@[m as int].sel == Some(c),
            req(nx as int) && req(ny as int),
            aspect_ok(aspect),
        ensures
            final(self).inv(),
            final(self).sane(),
            final(self).ml@ == old(self).ml@,
            final(self).selmon == old(self).selmon,
            final(self).clients@.len() == old(self).clients@.len(),
            forall|i: int| 0 <= i < old(self).clients@.len() && i != c ==> final(self).clients@[i] == old(self).clients@[i],
            ({
                let cl = old(self).clients@[c as int];
                let mn = old(self).mons@[m as int];
                let toggle = !cl.isfloating && arranges(layout_of(mn))
                    && (iabs(nx - cl.x) > SNAP || iabs(ny - cl.y) > SNAP) && !cl.isfixed;
                let f = final(self).clients@[c as int];
                &&& r == (if toggle { Relayout::Mon { m, bar: false } } else { Relayout::Nothing })
                &&& f.isfloating == (cl.isfloating || toggle)
                &&& (!arranges(layout_of(mn)) || f.isfloating) ==> exists|mid: Client| {
                    &&& (!toggle ==> mid == cl)
                    &&& (toggle ==> resize_result(aspect, Client { isfloating: true, ..cl }, mn, old(self).sw as int,
                        old(self).sh as int, old(self).bh as int, cl.x as int, cl.y as int, cl.w as int, cl.h as int, false, mid))
                    &&& mid.isfloating == f.isfloating
                    &&& #[trigger] resize_result(aspect, mid, mn, old(self).sw as int, old(self).sh as int, old(self).bh as int,
                        nx as int, ny as int, mid.w as int, mid.h as int, true, f)
                }
                &&& (arranges(layout_of(mn)) && !f.isfloating) ==> f == cl
            }),
    {
        let ghost o = *self;
        proof {
            o.lemma_is_mon(m);
            assert(o.cl(m).contains(c));
        }
        let lt = self.mons[m].lt[self.mons[m].sellt];
        let arr = has_arrange(lt);
        let cx = self.clients[c].x;
        let cy = self.clients[c].y;
        let dx = nx - cx;
        let dy = ny - cy;
        let far = (if dx < 0 { -dx } else { dx }) > SNAP || (if dy < 0 { -dy } else { dy }) > SNAP;
        let mut r = Relayout::Nothing;
        if !self.clients[c].isfloating && arr && far {
            r = self.togglefloating(aspect);
            proof {
                let cl = o.clients@[c as int];
                assert(cl.mon == m);
                if !cl.isfixed {
                    assert((Client { isfloating: !cl.isfloating, ..cl }) == (Client { isfloating: true, ..cl }));
                    assert(resize_result(aspect, Client { isfloating: true, ..cl }, o.mons@[m as int], o.sw as int,
                        o.sh as int, o.bh as int, cl.x as int, cl.y as int, cl.w as int, cl.h as int, false,
                        self.clients@[c as int]));
                }
            }
        }
        let ghost mid = self.clients@[c as int];
        if !arr || self.clients[c].isfloating {
            proof {
                self.lemma_is_mon(m);
            }
            let w = self.clients[c].w;
            let h = self.clients[c].h;
            self.resize(c, nx, ny, w, h, true, aspect);
            proof {
                let cl = o.clients@[c as int];
                let toggle = !cl.isfloating && arranges(layout_of(o.mons@[m as int]))
                    && (iabs(nx - cl.x) > SNAP || iabs(ny - cl.y) > SNAP) && !cl.isfixed;
                assert(toggle ==> resize_result(aspect, Client { isfloating: true, ..cl }, o.mons@[m as int], o.sw as int,
                    o.sh as int, o.bh as int, cl.x as int, cl.y as int, cl.w as int, cl.h as int, false, mid));
            }
        }
        r
    }

    /// One step of a drag that asks to size the selected client `c` of the
    /// selected monitor `m` `nw` by `nh`, when its far corner stays within
    /// the window area: a tiled client under a tiling layout changed by
    /// more than `SNAP` starts floating (unless it is fixed); a floating
    /// client, or any under the floating layout, is then resized in place.
    /// Returns the relayout the floating change needs.
    #[verifier::rlimit(100)]
    #[verifier::spinoff_prover]
    pub fn resize_step<A: Fn(Aspect, i32, i32) -> (i32, i32)>(&mut self, m: usize, c: usize, nw: i32, nh: i32,
        aspect: &A) -> (r: Relayout)
        requires
            old(self).inv(),
            old(self).sane(),
            old(self).selmon == Some(m),
            old(self).mons@[m as int].sel == Some(c),
            1 <= nw <= 0x40000 && 1 <= nh <= 0x40000,
            aspect_ok(aspect),
        ensures
            final(self).inv(),
            final(self).sane(),
            final(self).ml@ == old(self).ml@,
            final(self).selmon == old(self).selmon,
            final(self).clients@.len() == old(self).clients@.len(),
            forall|i: int| 0 <= i < old(self).clients@.len() && i != c ==> final(self).clients@[i] == old(self).clients@[i],
            ({
                let cl = old(self).clients@[c as int];
                let mn = old(self).mons@[m as int];
                let inside = mn.wx <= cl.x + nw <= mn.wx + mn.ww && mn.wy <= cl.y + nh <= mn.wy + mn.wh;
                let toggle = inside && !cl.isfloating && arranges(layout_of(mn))
                    && (iabs(nw - cl.w) > SNAP || iabs(nh - cl.h) > SNAP) && !cl.isfixed;
                let f = final(self).clients@[c as int];
                &&& r == (if toggle { Relayout::Mon { m, bar: false } } else { Relayout::Nothing })
                &&& f.isfloating == (cl.isfloating || toggle)
                &&& (inside && (!arranges(layout_of(mn)) || f.isfloating)) ==> exists|mid: Client| {
                    &&& (!toggle ==> mid == cl)
                    &&& (toggle ==> resize_result(aspect, Client { isfloating: true, ..cl }, mn, old(self).sw as int,
                        old(self).sh as int, old(self).bh as int, cl.x as int, cl.y as int, cl.w as int, cl.h as int, false, mid))
                    &&& mid.isfloating == f.isfloating
                    &&& #[trigger] resize_result(aspect, mid, mn, old(self).sw as int, old(self).sh as int, old(self).bh as int,
                        mid.x as int, mid.y as int, nw as int, nh as int, true, f)
                }
                &&& (!inside || (arranges(layout_of(mn)) && !f.isfloating)) ==> f == cl
            }),
    {
        let ghost o = *self;
        proof {
            o.lemma_is_mon(m);
            assert(o.cl(m).contains(c));
            assert(o.mons@[m as int].sane());
        }
        let cl = &self.clients[c];
        let mn = &self.mons[m];
        let inside = mn.wx <= cl.x + nw && cl.x + nw <= mn.wx + mn.ww && mn.wy <= cl.y + nh && cl.y + nh <= mn.wy + mn.wh;
        if !inside {
            return Relayout::Nothing;
        }
        let lt = mn.lt[mn.sellt];
        let arr = has_arrange(lt);
        let dw = nw - cl.w;
        let dh = nh - cl.h;
        let far = (if dw < 0 { -dw } else { dw }) > SNAP || (if dh < 0 { -dh } else { dh }) > SNAP;
        let mut r = Relayout::Nothing;
        if !cl.isfloating && arr && far {
            r = self.togglefloating(aspect);
            proof {
                let cl = o.clients@[c as int];
                assert(cl.mon == m);
                if !cl.isfixed {
                    assert((Client { isfloating: !cl.isfloating, ..cl }) == (Client { isfloating: true, ..cl }));
                    assert(resize_result(aspect, Client { isfloating: true, ..cl }, o.mons@[m as int], o.sw as int,
                        o.sh as int, o.bh as int, cl.x as int, cl.y as int, cl.w as int, cl.h as int, false,
                        self.clients@[c as int]));
                }
            }
        }
        let ghost mid = self.clients@[c as int];
        if !arr || self.clients[c].isfloating {
            proof {
                self.lemma_is_mon(m);
            }
            let x = self.clients[c].x;
            let y = self.clients[c].y;
            self.resize(c, x, y, nw, nh, true, aspect);
            proof {
                let cl = o.clients@[c as int];
                let mn = o.mons@[m as int];
                let inside = mn.wx <= cl.x + nw <= mn.wx + mn.ww && mn.wy <= cl.y + nh <= mn.wy + mn.wh;
                let toggle = inside && !cl.isfloating && arranges(layout_of(mn))
                    && (iabs(nw - cl.w) > SNAP || iabs(nh - cl.h) > SNAP) && !cl.isfixed;
                assert(toggle ==> resize_result(aspect, Client { isfloating: true, ..cl }, mn, o.sw as int,
                    o.sh as int, o.bh as int, cl.x as int, cl.y as int, cl.w as int, cl.h as int, false, mid));
            }
        }
        r
    }
}


/// The monitor `r` that a pointer at (`x`, `y`) is over in state `w`: the
/// first monitor in the list whose window area holds the point, else the
/// selected one.
pub open spec fn pointed_mon(w: Wm, x: int, y: int, r: Option<usize>) -> bool {
    (r matches Some(m) && exists|k: int| 0 <= k < w.ml@.len() && w.ml@[k] == m
        && in_window_area(w.mons@[m as int], x, y)
        && forall|k2: int| 0 <= k2 < k ==> !in_window_area(w.mons@[w.ml@[k2] as int], x, y))
    || (r == w.selmon && forall|k: int| 0 <= k < w.ml@.len() ==> !in_window_area(w.mons@[w.ml@[k] as int], x, y))
}

/// The centre of client `c`, borders included (halves rounded toward
/// zero).
pub open spec fn centre(c: Client) -> (int, int) {
    (c.x + div_trunc(c.w + 2 * c.bw, 2), c.y + div_trunc(c.h + 2 * c.bw, 2))
}

impl Wm {
    /// Ends a drag of client `c` that began on monitor `m`: when the
    /// client's centre is now over another monitor `t`, the client is sent
    /// there, `t` is selected and focus goes to its first visible client.
    /// Gives `t`, what must be redrawn and the focus change; nothing when
    /// the client stays.
    #[verifier::rlimit(100)]
    #[verifier::spinoff_prover]
    pub fn drag_end(&mut self, m: usize, c: usize) -> (r: Option<(usize, Relayout, FocusChange)>)
        requires
            old(self).inv(),
            old(self).sane(),
            managed(*old(self), c),
        ensures
            final(self).inv(),
            final(self).sane(),
            final(self).ml@ == old(self).ml@,
            ({
                let (cx, cy) = centre(old(self).clients@[c as int]);
                &&& r is None ==> *final(self) == *old(self)
                    && (pointed_mon(*old(self), cx, cy, None) || pointed_mon(*old(self), cx, cy, Some(m)))
                &&& r matches Some((t, rl, f)) ==> {
                    &&& pointed_mon(*old(self), cx, cy, Some(t))
                    &&& t != m
                    &&& rl == (if old(self).clients@[c as int].mon != t { Relayout::All } else { Relayout::Nothing })
                    &&& final(self).clients@[c as int].mon == t
                    &&& final(self).clients@[c as int].tags == (if old(self).clients@[c as int].mon != t {
                        old(self).mons@[t as int].tagset[old(self).mons@[t as int].seltags as int] } else { old(self).clients@[c as int].tags })
                    &&& final(self).selmon == (match f.focused { Some(x) => Some(final(self).clients@[x as int].mon), None => Some(t) })
                    &&& final(self).mons@[final(self).selmon.unwrap() as int].sel == f.focused
                }
            }),
    {
        proof {
            self.lemma_managed(c);
            assert(self.clients@[c as int].sane());
        }
        let cl = &self.clients[c];
        let cx = cl.x + width_of(cl) / 2;
        let cy = cl.y + height_of(cl) / 2;
        assert((cx as int, cy as int) == centre(self.clients@[c as int]));
        let p = self.ptrtomon(cx, cy);
        assert(pointed_mon(*self, cx as int, cy as int, p));
        let t = match p {
            Some(t) => t,
            None => {
                assert(p is None || p == Some(m));
                return None;
            }
        };
        if t == m {
            assert(p is None || p == Some(m));
            return None;
        }
        assert(self.is_mon(t)) by {
            if p != self.selmon {
                let k = choose|k: int| 0 <= k < self.ml@.len() && self.ml@[k] == t
                    && in_window_area(self.mons@[t as int], cx as int, cy as int)
                    && forall|k2: int| 0 <= k2 < k ==> !in_window_area(self.mons@[self.ml@[k2] as int], cx as int, cy as int);
                assert(self.ml@[k] == t);
            }
        }
        let rl = self.sendmon(c, t);
        self.selmon = Some(t);
        let f = self.focus(None);
        Some((t, rl, f))
    }
}

} // verus!
