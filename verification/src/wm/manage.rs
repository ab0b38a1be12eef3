//! Taking windows under management and letting them go.

use vstd::prelude::*;
use crate::menu::state::div_trunc;
use crate::wm::model::{Client, Monitor, Wm, screen};
use crate::wm::config::{Rule, BORDERPX};
use crate::wm::focus::managed;
use crate::wm::hints::{size_words_ok, size_hinted, broken, rules_from, split_class};
use crate::wm::lists::pos;
use crate::links::in_list;

verus! {

/// Where a new client of size `w` by `h` at (`x`, `y`) relative to monitor
/// `mn`'s window area is placed, and its border: covering the monitor it
/// floats at its corner without a border; else it is kept on the monitor
/// and off a top bar, with the configured border.
pub open spec fn placement(mn: Monitor, bh: int, x: int, y: int, w: int, h: int) -> (int, int, int, bool) {
    let x0 = x + mn.wx;
    let y0 = y + mn.wy;
    if w == mn.mw && h == mn.mh {
        (mn.mx as int, mn.my as int, 0, true)
    } else {
        let x1 = if x0 + w > mn.mx + mn.mw { mn.mx + mn.mw - w } else { x0 };
        let y1 = if y0 + h > mn.my + mn.mh { mn.my + mn.mh - h } else { y0 };
        let x2 = if x1 < mn.mx { mn.mx as int } else { x1 };
        let y2 = if y1 < mn.my { mn.my as int } else { y1 };
        let cx = x2 + div_trunc(w, 2);
        let y3 = if mn.by == 0 && cx >= mn.wx && cx < mn.wx + mn.ww {
            if y2 < bh { bh } else { y2 }
        } else {
            if y2 < mn.my { mn.my as int } else { y2 }
        };
        (x2, y3, BORDERPX as int, false)
    }
}

/// The instance and class names of a window with `WM_CLASS` property
/// `class_prop`: "broken" for both without one.
pub open spec fn class_names(class_prop: Option<Vec<u8>>) -> (Seq<u8>, Seq<u8>) {
    match class_prop {
        Some(p) => if p@.len() > 0 { split_class(p@) } else { (broken(), broken()) },
        None => (broken(), broken()),
    }
}

impl Wm {
    /// Takes window `win` under management: its geometry and border width
    /// as the display reports them, the client it is transient for (whose
    /// monitor and tags it takes; else the selected monitor and the window
    /// rules decide, from its `WM_CLASS` property), its title, and its
    /// size hints. It is placed (see `placement`), floats when it covers
    /// its monitor, is transient or has a fixed size, and heads both lists
    /// of its monitor. Returns its slot.
    #[verifier::rlimit(100)]
    #[verifier::spinoff_prover]
    pub fn manage(&mut self, win: u32, gx: i32, gy: i32, gw: i32, gh: i32, gbw: i32, parent: Option<usize>,
        name: Vec<u8>, class_prop: Option<Vec<u8>>, size_words: &[u32], rules: &Vec<Rule>) -> (c: usize)
        requires
            old(self).inv(),
            old(self).sane(),
            old(self).selmon is Some,
            parent matches Some(p) ==> managed(*old(self), p),
            screen(gx as int) && screen(gy as int) && 0 <= gw && screen(gw as int) && 0 <= gh && screen(gh as int),
            0 <= gbw && screen(gbw as int),
            size_words_ok(size_words@),
        ensures
            final(self).inv(),
            final(self).sane(),
            final(self).ml@ == old(self).ml@,
            (c as int) < final(self).clients@.len(),
            managed(*final(self), c),
            ({
                let cl = final(self).clients@[c as int];
                let m = cl.mon;
                let mn = final(self).mons@[m as int];
                let pl = placement(mn, old(self).bh as int, gx as int, gy as int, gw as int, gh as int);
                &&& final(self).cl(m)[0] == c
                &&& final(self).sl(m)[0] == c
                &&& cl.win == win
                &&& cl.name@ == (if name@.len() == 0 { broken() } else { name@ })
                &&& cl.x == pl.0 && cl.y == pl.1 && cl.bw == pl.2
                &&& cl.w == gw && cl.h == gh
                &&& cl.oldx == gx && cl.oldy == gy && cl.oldw == gw && cl.oldh == gh
                &&& cl.oldbw == gbw
                &&& (parent matches Some(p) ==> m == old(self).clients@[p as int].mon && cl.tags == old(self).clients@[p as int].tags)
                &&& parent is None ==> old(self).is_mon(m)
                &&& cl.isfloating == (pl.3 || parent is Some || cl.isfixed
                    || (parent is None && rules_from(old(self).ml@, old(self).mons@, rules@, 0, class_names(class_prop).1,
                        class_names(class_prop).0, cl.name@, (false, 0u32, old(self).selmon.unwrap())).0))
                &&& cl.isfixed == size_hinted(cl, size_words@).isfixed
                &&& cl.alive
            }),
    {
        let ghost o = *self;
        let c = self.take_slot(win, gx, gy, gw, gh, gbw, parent, name);
        if parent.is_none() {
            self.applyrules(c, class_prop, rules);
        }
        let m = self.clients[c].mon;
        proof {
            self.lemma_is_mon_sane(m);
        }
        let ghost o2 = *self;
        self.place_new(c);
        self.update_size_hints(c, size_words);
        if !self.clients[c].isfloating {
            let f = parent.is_some() || self.clients[c].isfixed;
            let ghost o3 = *self;
            self.clients[c].isfloating = f;
            self.clients[c].oldstate = f;
            proof {
                self.lemma_client_changed(o3, c);
            }
        }
        assert(!managed(*self, c)) by {
            if managed(*self, c) {
                let k = choose|k: int| 0 <= k < self.ml@.len() && self.cl(self.ml@[k]).contains(c);
                assert(self.cl(self.ml@[k]) == o2.cl(o2.ml@[k]));
            }
        }
        self.list_new(c);
        c
    }

    /// Takes a new client slot for window `win` with the reported geometry
    /// and border width, the monitor and tags of the client it is transient
    /// for (else the selected monitor), and its title; it is listed nowhere
    /// yet.
    #[verifier::rlimit(100)]
    #[verifier::spinoff_prover]
    fn take_slot(&mut self, win: u32, gx: i32, gy: i32, gw: i32, gh: i32, gbw: i32, parent: Option<usize>,
        name: Vec<u8>) -> (c: usize)
        requires
            old(self).inv(),
            old(self).sane(),
            old(self).selmon is Some,
            parent matches Some(p) ==> managed(*old(self), p),
            screen(gx as int) && screen(gy as int) && 0 <= gw && screen(gw as int) && 0 <= gh && screen(gh as int),
            0 <= gbw && screen(gbw as int),
        ensures
            final(self).inv(),
            final(self).sane(),
            !managed(*final(self), c),
            final(self).same_globals(*old(self)),
            final(self).mons@ == old(self).mons@,
            final(self).cls@ == old(self).cls@,
            final(self).sls@ == old(self).sls@,
            (c as int) < final(self).clients@.len(),
            final(self).clients@.len() >= old(self).clients@.len(),
            forall|i: int| 0 <= i < old(self).clients@.len() && i != c ==> #[trigger] final(self).clients@[i] == old(self).clients@[i],
            ({
                let cl = final(self).clients@[c as int];
                &&& cl.win == win && cl.alive && !cl.isfloating
                &&& cl.name@ == (if name@.len() == 0 { broken() } else { name@ })
                &&& cl.x == gx && cl.y == gy && cl.w == gw && cl.h == gh
                &&& cl.bw == 0 && cl.oldbw == gbw
                &&& (parent matches Some(p) ==> cl.mon == old(self).clients@[p as int].mon && cl.tags == old(self).clients@[p as int].tags)
                &&& (parent is None ==> cl.mon == old(self).selmon.unwrap())
                &&& final(self).is_mon(cl.mon)
            }),
    {
        let ghost o = *self;
        let mut cl = Client::new(win);
        cl.x = gx;
        cl.y = gy;
        cl.w = gw;
        cl.h = gh;
        cl.oldbw = gbw;
        match parent {
            Some(p) => {
                proof {
                    o.lemma_managed(p);
                }
                cl.mon = self.clients[p].mon;
                cl.tags = self.clients[p].tags;
            },
            None => {
                cl.mon = self.selmon.unwrap();
            },
        }
        cl.name = if name.len() == 0 { crate::wm::hints::broken_exec() } else { name };
        let c = self.alloc_client(cl);
        proof {
            assert(self.consistent()) by {
                assert forall|k: int| 0 <= k < self.ml@.len() implies self.mon_consistent(#[trigger] self.ml@[k]) by {
                    assert(o.mon_consistent(o.ml@[k]));
                }
            }
            assert(!managed(*self, c)) by {
                if managed(*self, c) {
                    let k = choose|k: int| 0 <= k < self.ml@.len() && self.cl(self.ml@[k]).contains(c);
                    assert(o.mon_ok(o.ml@[k]));
                    let j = choose|j: int| 0 <= j < o.cl(o.ml@[k]).len() && o.cl(o.ml@[k])[j] == c;
                    assert(o.clients@[o.cl(o.ml@[k])[j] as int].alive);
                }
            }
            assert(self.sane()) by {
                assert forall|i: int| 0 <= i < self.clients@.len() && self.clients@[i].alive implies (#[trigger] self.clients@[i]).sane() by {
                    if i != c {
                        assert(o.clients@[i].alive);
                    }
                }
            }
        }
        proof {
            if parent is Some {
                o.lemma_managed(parent.unwrap());
            } else {
                assert(in_list(o.selmon, o.ml@));
            }
        }
        c
    }

    /// Lists the new client `c` at the head of both lists of its monitor.
    #[verifier::rlimit(100)]
    #[verifier::spinoff_prover]
    fn list_new(&mut self, c: usize)
        requires
            old(self).inv(),
            old(self).sane(),
            (c as int) < old(self).clients@.len(),
            old(self).clients@[c as int].alive,
            old(self).is_mon(old(self).clients@[c as int].mon),
            !managed(*old(self), c),
        ensures
            final(self).inv(),
            final(self).sane(),
            final(self).ml@ == old(self).ml@,
            managed(*final(self), c),
            ({
                let m = old(self).clients@[c as int].mon;
                &&& final(self).cl(m)[0] == c
                &&& final(self).sl(m)[0] == c
                &&& final(self).clients@.len() == old(self).clients@.len()
                &&& forall|i: int| 0 <= i < old(self).clients@.len() ==> (#[trigger] final(self).clients@[i]) == (Client {
                    next: final(self).clients@[i].next, snext: final(self).clients@[i].snext, ..old(self).clients@[i] })
                &&& final(self).mons@.len() == old(self).mons@.len()
                &&& forall|i: int| 0 <= i < old(self).mons@.len() ==> (#[trigger] final(self).mons@[i]) == (Monitor {
                    clients: final(self).mons@[i].clients, stack: final(self).mons@[i].stack, ..old(self).mons@[i] })
            }),
    {
        let ghost o2 = *self;
        let m = self.clients[c].mon;
        proof {
            assert(!self.cl(m).contains(c)) by {
                if self.cl(m).contains(c) {
                    let k = choose|k: int| 0 <= k < o2.ml@.len() && o2.ml@[k] == m;
                    assert(managed(o2, c));
                }
            }
            assert(!self.sl(m).contains(c)) by {
                if self.sl(m).contains(c) {
                    assert(o2.mon_consistent(m)) by {
                        let k = choose|k: int| 0 <= k < o2.ml@.len() && o2.ml@[k] == m;
                        assert(o2.mon_consistent(o2.ml@[k]));
                    }
                    assert(o2.cl(m).contains(c));
                    let k = choose|k: int| 0 <= k < o2.ml@.len() && o2.ml@[k] == m;
                    assert(managed(o2, c));
                }
            }
        }
        self.attach(c);
        let ghost o3 = *self;
        self.attach_stack(c);
        proof {
            self.lemma_new_listed(o2, c, m);
            let k = choose|k: int| 0 <= k < self.ml@.len() && self.ml@[k] == m;
            assert(self.cl(self.ml@[k]).contains(c)) by {
                assert(self.cl(m)[0] == c);
            }
            assert forall|i: int| 0 <= i < o2.clients@.len() implies (#[trigger] self.clients@[i]) == (Client {
                next: self.clients@[i].next, snext: self.clients@[i].snext, ..o2.clients@[i] }) by {
                assert(o3.clients@[i] == (Client { next: o3.clients@[i].next, ..o2.clients@[i] }));
            }
            assert forall|i: int| 0 <= i < o2.mons@.len() implies (#[trigger] self.mons@[i]) == (Monitor {
                clients: self.mons@[i].clients, stack: self.mons@[i].stack, ..o2.mons@[i] }) by {
                assert(o3.mons@[i] == (Monitor { clients: o3.mons@[i].clients, ..o2.mons@[i] }));
            }
            assert forall|i: int| 0 <= i < self.clients@.len() && self.clients@[i].alive implies (#[trigger] self.clients@[i]).sane() by {
                assert(o2.clients@[i].alive);
                assert(o2.clients@[i].sane());
            }
            assert forall|kk: int| 0 <= kk < self.ml@.len() implies (#[trigger] self.mons@[self.ml@[kk] as int]).sane() by {
                assert(o2.mons@[o2.ml@[kk] as int].sane());
            }
        }
    }

    /// Places the new client `c` on its monitor (see `placement`).
    fn place_new(&mut self, c: usize)
        requires
            old(self).inv(),
            old(self).sane(),
            (c as int) < old(self).clients@.len(),
            old(self).clients@[c as int].alive,
            old(self).is_mon(old(self).clients@[c as int].mon),
            screen(old(self).clients@[c as int].x as int) && screen(old(self).clients@[c as int].y as int),
            0 <= old(self).clients@[c as int].w && screen(old(self).clients@[c as int].w as int),
            0 <= old(self).clients@[c as int].h && screen(old(self).clients@[c as int].h as int),
            old(self).clients@[c as int].bw == 0,
        ensures
            final(self).inv(),
            final(self).sane(),
            *final(self) == (Wm { clients: final(self).clients, ..*old(self) }),
            ({
                let cl = old(self).clients@[c as int];
                let mn = old(self).mons@[cl.mon as int];
                let pl = placement(mn, old(self).bh as int, cl.x as int, cl.y as int, cl.w as int, cl.h as int);
                &&& final(self).clients@ == old(self).clients@.update(c as int, Client {
                    oldx: cl.x, oldy: cl.y, oldw: cl.w, oldh: cl.h,
                    x: pl.0 as i32, y: pl.1 as i32, bw: pl.2 as i32, isfloating: if pl.3 { true } else { cl.isfloating },
                    ..cl })
            }),
    {
        let ghost o = *self;
        let m = self.clients[c].mon;
        proof {
            self.lemma_is_mon_sane(m);
        }
        let ox = self.clients[c].x;
        let oy = self.clients[c].y;
        let w = self.clients[c].w;
        let h = self.clients[c].h;
        let mx = self.mons[m].mx;
        let my = self.mons[m].my;
        let mw = self.mons[m].mw;
        let mh = self.mons[m].mh;
        let wx = self.mons[m].wx;
        let wy = self.mons[m].wy;
        let ww = self.mons[m].ww;
        let by = self.mons[m].by;
        let bh = self.bh;
        let mut x = ox + wx;
        let mut y = oy + wy;
        let mut bw: i32 = 0;
        let mut floating = self.clients[c].isfloating;
        if w == mw && h == mh {
            floating = true;
            x = mx;
            y = my;
        } else {
            if x + w > mx + mw {
                x = mx + mw - w;
            }
            if y + h > my + mh {
                y = my + mh - h;
            }
            if x < mx {
                x = mx;
            }
            if y < my {
                y = my;
            }
            let cx = x + w / 2;
            assert(w / 2 == div_trunc(w as int, 2));
            if by == 0 && cx >= wx && cx < wx + ww {
                if y < bh {
                    y = bh;
                }
            } else {
                if y < my {
                    y = my;
                }
            }
            bw = BORDERPX;
        }
        self.clients[c].oldx = ox;
        self.clients[c].oldy = oy;
        self.clients[c].oldw = w;
        self.clients[c].oldh = h;
        self.clients[c].x = x;
        self.clients[c].y = y;
        self.clients[c].bw = bw;
        self.clients[c].isfloating = floating;
        proof {
            self.lemma_client_changed(o, c);
        }
    }

    /// After the new client `c` was listed by monitor `m`, the lists are
    /// consistent.
    proof fn lemma_new_listed(&self, o: Wm, c: usize, m: usize)
        requires
            o.inv(),
            o.is_mon(m),
            !o.cl(m).contains(c),
            !o.sl(m).contains(c),
            self.wf(),
            self.ml@ == o.ml@,
            ({
                let s2 = self.sls@;
                &&& self.cls@ == o.cls@.update(m as int, seq![c] + o.cl(m))
                &&& self.sls@ == o.sls@.update(m as int, seq![c] + o.sl(m))
            }),
            self.mons@.len() == o.mons@.len(),
            forall|i: int| 0 <= i < o.mons@.len() ==> (#[trigger] self.mons@[i]).sel == o.mons@[i].sel,
        ensures
            self.consistent(),
    {
        o.lemma_is_mon(m);
        assert forall|k: int| 0 <= k < self.ml@.len() implies self.mon_consistent(#[trigger] self.ml@[k]) by {
            let mm = self.ml@[k];
            assert(o.mon_consistent(o.ml@[k]));
            if mm == m {
                assert forall|x: usize| self.cl(mm).contains(x) <==> self.sl(mm).contains(x) by {
                    if x != c {
                        if self.cl(mm).contains(x) {
                            let j = choose|j: int| 0 <= j < self.cl(mm).len() && self.cl(mm)[j] == x;
                            assert(o.cl(m)[j - 1] == x);
                            assert(o.sl(m).contains(x));
                            let q = choose|q: int| 0 <= q < o.sl(m).len() && o.sl(m)[q] == x;
                            assert(self.sl(mm)[q + 1] == x);
                        }
                        if self.sl(mm).contains(x) {
                            let j = choose|j: int| 0 <= j < self.sl(mm).len() && self.sl(mm)[j] == x;
                            assert(o.sl(m)[j - 1] == x);
                            assert(o.cl(m).contains(x));
                            let q = choose|q: int| 0 <= q < o.cl(m).len() && o.cl(m)[q] == x;
                            assert(self.cl(mm)[q + 1] == x);
                        }
                    } else {
                        assert(self.cl(mm)[0] == c);
                        assert(self.sl(mm)[0] == c);
                    }
                }
                if o.mons@[m as int].sel is Some {
                    let s0 = o.mons@[m as int].sel.unwrap();
                    let q = choose|q: int| 0 <= q < o.cl(m).len() && o.cl(m)[q] == s0;
                    assert(self.cl(mm)[q + 1] == s0);
                }
            }
        }
    }

    /// Lets the managed client `c` go: it leaves its monitor's lists (whose
    /// selection moves on if it was selected) and its slot is freed.
    /// Returns its monitor, to be arranged.
    pub fn unmanage(&mut self, c: usize) -> (m: usize)
        requires
            old(self).inv(),
            old(self).sane(),
            managed(*old(self), c),
        ensures
            final(self).inv(),
            final(self).sane(),
            final(self).ml@ == old(self).ml@,
            m == old(self).clients@[c as int].mon,
            !final(self).clients@[c as int].alive,
            !managed(*final(self), c),
            final(self).cl(m) == old(self).cl(m).remove(pos(old(self).cl(m), c)),
            final(self).sl(m) == old(self).sl(m).remove(pos(old(self).sl(m), c)),
    {
        let ghost o = *self;
        proof {
            o.lemma_managed(c);
        }
        let m = self.clients[c].mon;
        self.unlist(c);
        let ghost o2 = *self;
        self.clients[c].alive = false;
        proof {
            self.lemma_unlisted_client(o2, c);
            assert forall|k: int| 0 <= k < self.ml@.len() implies self.mon_consistent(#[trigger] self.ml@[k]) by {
                let mm = self.ml@[k];
                if mm != m {
                    assert(o.mon_consistent(o.ml@[k]));
                    assert(self.cl(mm) == o.cl(mm) && self.sl(mm) == o.sl(mm));
                    assert(self.mons@[mm as int] == o.mons@[mm as int]);
                } else {
                    crate::wm::actions::lemma_removed_absent(o.cl(m), c);
                    crate::wm::actions::lemma_removed_absent(o.sl(m), c);
                    assert(o.mon_consistent(o.ml@[k]));
                    assert forall|x: usize| self.cl(mm).contains(x) <==> self.sl(mm).contains(x) by {
                        if x != c {
                            assert(self.cl(mm).contains(x) <==> o.cl(m).contains(x));
                            assert(self.sl(mm).contains(x) <==> o.sl(m).contains(x));
                        }
                    }
                    if self.mons@[m as int].sel is Some {
                        let s0 = self.mons@[m as int].sel.unwrap();
                        assert(self.sl(m).contains(s0));
                    }
                }
            }
            assert forall|i: int| 0 <= i < self.clients@.len() && self.clients@[i].alive implies (#[trigger] self.clients@[i]).sane() by {
                assert(o2.clients@[i].alive);
            }
        }
        m
    }
}

} // verus!
