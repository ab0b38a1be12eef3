//! Requests of clients: to be configured, and to be shown full screen.

use vstd::prelude::*;
use crate::menu::state::div_trunc;
use crate::wm::model::{Client, Monitor, Wm, visible, isvisible, screen};
use crate::wm::config::{arranges, has_arrange};
use crate::wm::focus::managed;
use crate::wm::geometry::moved;

verus! {

/// The fields of a configure request: x, y, width, height and border
/// width.
pub const CW_X: u16 = 1;
pub const CW_Y: u16 = 2;
pub const CW_WIDTH: u16 = 4;
pub const CW_HEIGHT: u16 = 8;
pub const CW_BORDER_WIDTH: u16 = 16;

/// What a configure request of a managed client asks of the display.
#[derive(Clone, Copy, PartialEq, Eq, Structural)]
pub enum ConfigureReply {
    /// Nothing beyond the new border width.
    Border,
    /// Tell the client its unchanged geometry.
    Notify,
    /// The client was moved or resized: tell it its geometry when it was
    /// only moved (`notify`), and apply the geometry when it shows (`apply`).
    Moved { notify: bool, apply: bool },
}

/// A floating client's (or any client's, without an arranging layout)
/// geometry after a configure request with fields `mask`: the requested
/// position relative to the monitor, and size; re-centred on the monitor
/// along an axis where it would stick out, when it floats.
pub open spec fn configured(c: Client, mn: Monitor, mask: u16, x: int, y: int, w: int, h: int) -> Client {
    let x1 = if mask & CW_X != 0 { mn.mx + x } else { c.x as int };
    let y1 = if mask & CW_Y != 0 { mn.my + y } else { c.y as int };
    let w1 = if mask & CW_WIDTH != 0 { w } else { c.w as int };
    let h1 = if mask & CW_HEIGHT != 0 { h } else { c.h as int };
    let x2 = if x1 + w1 > mn.mx + mn.mw && c.isfloating { mn.mx + div_trunc(mn.mw as int, 2) - div_trunc(w1, 2) } else { x1 };
    let y2 = if y1 + h1 > mn.my + mn.mh && c.isfloating { mn.my + div_trunc(mn.mh as int, 2) - div_trunc(h1, 2) } else { y1 };
    Client { x: x2 as i32, y: y2 as i32, w: w1 as i32, h: h1 as i32, ..c }
}

impl Wm {
    /// Handles a configure request of the managed client `c` for the fields
    /// `mask`: a border width is taken as asked; a client that floats, or
    /// any client without an arranging layout, is `configured`; a tiled
    /// client is only told its geometry.
    pub fn configure_request(&mut self, c: usize, mask: u16, x: i32, y: i32, w: i32, h: i32, bw: i32) -> (r: ConfigureReply)
        requires
            old(self).inv(),
            old(self).sane(),
            managed(*old(self), c),
            screen(x as int) && screen(y as int) && 0 <= w && screen(w as int) && 0 <= h && screen(h as int),
            0 <= bw && screen(bw as int),
        ensures
            final(self).inv(),
            final(self).sane(),
            ({
                let cl = old(self).clients@[c as int];
                let mn = old(self).mons@[cl.mon as int];
                if mask & CW_BORDER_WIDTH != 0 {
                    &&& final(self).clients@ == old(self).clients@.update(c as int, Client { bw, ..cl })
                    &&& *final(self) == (Wm { clients: final(self).clients, ..*old(self) })
                    &&& r == ConfigureReply::Border
                } else if cl.isfloating || !arranges(mn.lt[mn.sellt as int]) {
                    let n = configured(cl, mn, mask, x as int, y as int, w as int, h as int);
                    &&& final(self).clients@ == old(self).clients@.update(c as int, n)
                    &&& *final(self) == (Wm { clients: final(self).clients, ..*old(self) })
                    &&& r == (ConfigureReply::Moved {
                        notify: mask & (CW_X | CW_Y) != 0 && mask & (CW_WIDTH | CW_HEIGHT) == 0,
                        apply: visible(n, mn) })
                } else {
                    *final(self) == *old(self) && r == ConfigureReply::Notify
                }
            }),
    {
        let ghost o = *self;
        proof {
            o.lemma_managed(c);
            o.lemma_is_mon_sane(o.clients@[c as int].mon);
            assert(o.clients@[c as int].sane());
        }
        if mask & CW_BORDER_WIDTH != 0 {
            self.clients[c].bw = bw;
            proof {
                self.lemma_client_changed(o, c);
            }
            return ConfigureReply::Border;
        }
        let m = self.clients[c].mon;
        let lt = self.mons[m].lt[self.mons[m].sellt];
        if self.clients[c].isfloating || !has_arrange(lt) {
            let mx = self.mons[m].mx;
            let my = self.mons[m].my;
            let mw = self.mons[m].mw;
            let mh = self.mons[m].mh;
            let fl = self.clients[c].isfloating;
            let mut nx = self.clients[c].x;
            let mut ny = self.clients[c].y;
            let mut nw = self.clients[c].w;
            let mut nh = self.clients[c].h;
            if mask & CW_X != 0 {
                nx = mx + x;
            }
            if mask & CW_Y != 0 {
                ny = my + y;
            }
            if mask & CW_WIDTH != 0 {
                nw = w;
            }
            if mask & CW_HEIGHT != 0 {
                nh = h;
            }
            if nx + nw > mx + mw && fl {
                nx = mx + mw / 2 - nw / 2;
            }
            if ny + nh > my + mh && fl {
                ny = my + mh / 2 - nh / 2;
            }
            self.clients[c].x = nx;
            self.clients[c].y = ny;
            self.clients[c].w = nw;
            self.clients[c].h = nh;
            proof {
                assert(self.clients@[c as int] == configured(o.clients@[c as int], o.mons@[m as int], mask, x as int,
                    y as int, w as int, h as int));
                self.lemma_client_changed(o, c);
            }
            let notify = mask & (CW_X | CW_Y) != 0 && mask & (CW_WIDTH | CW_HEIGHT) == 0;
            let apply = isvisible(&self.clients[c], &self.mons[m]);
            ConfigureReply::Moved { notify, apply }
        } else {
            ConfigureReply::Notify
        }
    }

    /// Shows the managed client `c` full screen (`on`): it keeps its
    /// floating state and border for later, loses its border, floats and
    /// covers its monitor. Or ends that: the floating state, border and
    /// previous geometry come back. Returns its monitor, to be arranged
    /// when the full screen ends.
    pub fn set_fullscreen(&mut self, c: usize, on: bool) -> (m: usize)
        requires
            old(self).inv(),
            old(self).sane(),
            managed(*old(self), c),
        ensures
            final(self).inv(),
            final(self).sane(),
            *final(self) == (Wm { clients: final(self).clients, ..*old(self) }),
            ({
                let cl = old(self).clients@[c as int];
                let mn = old(self).mons@[cl.mon as int];
                &&& m == cl.mon
                &&& on ==> final(self).clients@ == old(self).clients@.update(c as int,
                    moved(Client { oldstate: cl.isfloating, oldbw: cl.bw, bw: 0, isfloating: true, ..cl },
                        mn.mx as int, mn.my as int, mn.mw as int, mn.mh as int))
                &&& !on ==> final(self).clients@ == old(self).clients@.update(c as int,
                    moved(Client { isfloating: cl.oldstate, bw: cl.oldbw, x: cl.oldx, y: cl.oldy, w: cl.oldw, h: cl.oldh, ..cl },
                        cl.oldx as int, cl.oldy as int, cl.oldw as int, cl.oldh as int))
            }),
    {
        let ghost o = *self;
        proof {
            o.lemma_managed(c);
            o.lemma_is_mon_sane(o.clients@[c as int].mon);
            assert(o.clients@[c as int].sane());
        }
        let m = self.clients[c].mon;
        if on {
            let fl = self.clients[c].isfloating;
            let b = self.clients[c].bw;
            self.clients[c].oldstate = fl;
            self.clients[c].oldbw = b;
            self.clients[c].bw = 0;
            self.clients[c].isfloating = true;
            let ghost o1 = *self;
            proof {
                self.lemma_client_changed(o, c);
            }
            let mx = self.mons[m].mx;
            let my = self.mons[m].my;
            let mw = self.mons[m].mw;
            let mh = self.mons[m].mh;
            self.resize_client(c, mx, my, mw, mh);
            proof {
                self.lemma_client_changed(o1, c);
            }
        } else {
            let os = self.clients[c].oldstate;
            let ob = self.clients[c].oldbw;
            let ox = self.clients[c].oldx;
            let oy = self.clients[c].oldy;
            let ow = self.clients[c].oldw;
            let oh = self.clients[c].oldh;
            self.clients[c].isfloating = os;
            self.clients[c].bw = ob;
            self.clients[c].x = ox;
            self.clients[c].y = oy;
            self.clients[c].w = ow;
            self.clients[c].h = oh;
            let ghost o1 = *self;
            proof {
                self.lemma_client_changed(o, c);
            }
            self.resize_client(c, ox, oy, ow, oh);
            proof {
                self.lemma_client_changed(o1, c);
            }
        }
        m
    }
}

} // verus!
