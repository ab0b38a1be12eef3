//! The actions bound to keys and buttons: tags, layouts, the bar, focus
//! and moving clients between monitors.

use vstd::prelude::*;
use crate::links::in_list;
use crate::wm::model::{Client, Monitor, Wm, visible, isvisible, mon_settings_ok, chained};
use crate::wm::config::{TAG_MASK, TAGS_LEN, LAYOUTS_LEN, layout_symbol, arranges, symbol_of, has_arrange};
use crate::wm::geometry::{bar_placed, aspect_ok, resize_result};
use crate::wm::model::Aspect;
use crate::wm::lists::{first_visible, first_tiled, pos, lemma_pos, dir_mon, lemma_first_visible_in, lemma_first_tiled_in};
use crate::wm::focus::{FocusChange, managed, focus_target};

verus! {

/// An action's argument.
#[derive(Clone, Copy, Debug, PartialEq, Eq, Structural)]
pub enum Arg {
    /// No argument.
    Void,
    I(i32),
    U(u32),
    /// A master-factor change, as the bit pattern of an `f32`.
    F(u32),
    /// A command, by its index in the command table.
    Cmd(usize),
    Layout(usize),
}

/// What must follow an action on the display.
#[derive(Clone, Copy, PartialEq, Eq, Structural)]
pub enum Relayout {
    /// Nothing changed.
    Nothing,
    /// Redraw monitor `m`'s bar.
    Bar(usize),
    /// Focus the first visible client and arrange monitor `m`; with
    /// `bar`, its bar window moved first.
    Mon { m: usize, bar: bool },
    /// Focus the first visible client and arrange every monitor.
    All,
    /// Apply the focus change and restack monitor `m`.
    Restack(usize),
}

/// The tag whose settings a tag set selects: 0 for all tags, else one
/// more than its lowest tag; `cur` when no tag below `TAGS_LEN` is in it.
pub open spec fn tag_index(want: u32, cur: usize, i: nat) -> usize
    decreases TAGS_LEN - i,
{
    if want == TAG_MASK {
        0
    } else if i >= TAGS_LEN {
        cur
    } else if want & (1u32 << i as u32) != 0 {
        (i + 1) as usize
    } else {
        tag_index(want, cur, i + 1)
    }
}

/// The window area and bar of monitor `a` are those of `mn` placed for a
/// bar shown as in `a`, when `a` shows or hides it unlike `mn`; else they
/// are `mn`'s.
pub open spec fn bar_follows(a: Monitor, mn: Monitor, bh: int) -> bool {
    let p = bar_placed(Monitor { showbar: a.showbar, ..mn }, bh);
    if a.showbar != mn.showbar {
        a.wy == p.wy && a.wh == p.wh && a.by == p.by
    } else {
        a.wy == mn.wy && a.wh == mn.wh && a.by == mn.by
    }
}

/// Monitor `a` is `mn` after viewing the tag set `want` (0: the previous
/// one): the tag sets swap, the new one is stored, the selected tag
/// changes, and its layout, master factor and bar visibility are
/// restored.
pub open spec fn viewed(a: Monitor, mn: Monitor, want: u32, bh: int) -> bool {
    let st = 1 - mn.seltags;
    &&& a.seltags == st
    &&& a.tagset[st] == (if want != 0 { want } else { mn.tagset[st] })
    &&& a.tagset[mn.seltags as int] == mn.tagset[mn.seltags as int]
    &&& a.curtag == (if want != 0 { tag_index(want, mn.curtag, 0) } else { mn.prevtag })
    &&& a.prevtag == mn.curtag
    &&& a.lt[0] == mn.lts@[a.curtag as int]
    &&& a.lt[1] == mn.lt[1]
    &&& a.mfact == mn.mfacts@[a.curtag as int]
    &&& a.showbar == mn.showbars@[a.curtag as int]
    &&& bar_follows(a, mn, bh)
    &&& a == (Monitor { seltags: a.seltags, tagset: a.tagset, curtag: a.curtag, prevtag: a.prevtag, lt: a.lt,
        mfact: a.mfact, showbar: a.showbar, wy: a.wy, wh: a.wh, by: a.by, ..mn })
}

/// The tag set an argument asks for.
pub open spec fn arg_tags(arg: Arg) -> u32 {
    match arg {
        Arg::U(u) => u,
        _ => 0,
    }
}

/// The last client of `l` before position `p` that shows on `mn`.
pub open spec fn last_visible(cs: Seq<Client>, mn: Monitor, l: Seq<usize>, p: int) -> Option<usize>
    decreases p,
{
    if p <= 0 || p > l.len() {
        None
    } else if visible(cs[l[p - 1] as int], mn) {
        Some(l[p - 1])
    } else {
        last_visible(cs, mn, l, p - 1)
    }
}

/// The client that moving the focus from `sel` in direction `dir` picks
/// in the tiling list `l`: forward, the next visible one, wrapping to the
/// first; backward, the previous visible one, wrapping to the last.
pub open spec fn stack_step(cs: Seq<Client>, mn: Monitor, l: Seq<usize>, sel: usize, dir: i32) -> Option<usize> {
    let p = pos(l, sel);
    if dir > 0 {
        match first_visible(cs, mn, l, p + 1) {
            Some(x) => Some(x),
            None => first_visible(cs, mn, l, 0),
        }
    } else {
        match last_visible(cs, mn, l, p) {
            Some(x) => Some(x),
            None => last_visible(cs, mn, l, l.len() as int),
        }
    }
}

/// `last_visible` names a visible client of the list before `p`.
pub proof fn lemma_last_visible_in(cs: Seq<Client>, mn: Monitor, l: Seq<usize>, p: int)
    ensures
        last_visible(cs, mn, l, p) matches Some(x) ==> exists|j: int| 0 <= j < p && j < l.len() && l[j] == x,
    decreases p,
{
    if 0 < p <= l.len() && !visible(cs[l[p - 1] as int], mn) {
        lemma_last_visible_in(cs, mn, l, p - 1);
    }
}

impl Wm {
    /// Viewing with no selected monitor does nothing; else with the tag
    /// set `arg_tags(arg) & TAG_MASK`: nothing when it is the one shown,
    /// else the monitor is `viewed` and arranged.
    pub fn view(&mut self, arg: Arg) -> (r: Relayout)
        requires
            old(self).inv(),
            old(self).sane(),
        ensures
            final(self).inv(),
            final(self).sane(),
            ({
                let want = arg_tags(arg) & TAG_MASK;
                match old(self).selmon {
                    None => *final(self) == *old(self) && r == Relayout::Nothing,
                    Some(m) => {
                        let mn = old(self).mons@[m as int];
                        if want == mn.tagset[mn.seltags as int] {
                            *final(self) == *old(self) && r == Relayout::Nothing
                        } else {
                            &&& final(self).mons@.len() == old(self).mons@.len()
                            &&& forall|i: int| 0 <= i < old(self).mons@.len() && i != m ==> final(self).mons@[i] == old(self).mons@[i]
                            &&& viewed(final(self).mons@[m as int], mn, want, old(self).bh as int)
                            &&& *final(self) == (Wm { mons: final(self).mons, ..*old(self) })
                            &&& r == (Relayout::Mon { m, bar: mn.showbar != final(self).mons@[m as int].showbar })
                        }
                    },
                }
            }),
    {
        let ghost o = *self;
        let m = match self.selmon {
            Some(m) => m,
            None => {
                return Relayout::Nothing;
            },
        };
        proof {
            self.lemma_is_mon(m);
            let k = choose|k: int| 0 <= k < self.ml@.len() && self.ml@[k] == m;
            assert(self.mons@[self.ml@[k] as int].sane());
        }
        let want = (match arg {
            Arg::U(u) => u,
            _ => 0,
        }) & TAG_MASK;
        if want == self.mons[m].tagset[self.mons[m].seltags] {
            return Relayout::Nothing;
        }
        let s0 = self.mons[m].seltags;
        let st = s0 ^ 1;
        assert(st == 1 - s0) by (bit_vector)
            requires st == s0 ^ 1, s0 < 2;
        self.mons[m].seltags = st;
        if want != 0 {
            self.mons[m].tagset[st] = want;
            let cur = self.mons[m].curtag;
            self.mons[m].prevtag = cur;
            let ct = tag_of(want, cur);
            self.mons[m].curtag = ct;
        } else {
            let cur = self.mons[m].curtag;
            let prev = self.mons[m].prevtag;
            self.mons[m].prevtag = cur;
            self.mons[m].curtag = prev;
        }
        let ct = self.mons[m].curtag;
        let l = self.mons[m].lts[ct];
        self.mons[m].lt[0] = l;
        let f = self.mons[m].mfacts[ct];
        self.mons[m].mfact = f;
        let mut bar = false;
        if self.mons[m].showbar != self.mons[m].showbars[ct] {
            let sb = self.mons[m].showbars[ct];
            self.mons[m].showbar = sb;
            self.update_bar_pos(m);
            bar = true;
        }
        proof {
            assert(viewed(self.mons@[m as int], o.mons@[m as int], want, o.bh as int));
            self.lemma_mon_changed(o, m);
        }
        Relayout::Mon { m, bar }
    }

    /// After monitor `m`'s settings, tag sets or bar changed (but not its
    /// links, lists, selection or monitor area), the invariant and sanity
    /// still hold.
    pub proof fn lemma_mon_changed(&self, o: Wm, m: usize)
        requires
            o.inv(),
            o.sane(),
            o.is_mon(m),
            *self == (Wm { mons: self.mons, ..o }),
            self.mons@.len() == o.mons@.len(),
            forall|i: int| 0 <= i < o.mons@.len() && i != m ==> #[trigger] self.mons@[i] == o.mons@[i],
            ({
                let a = self.mons@[m as int];
                let b = o.mons@[m as int];
                &&& a.next == b.next && a.alive == b.alive && a.clients == b.clients && a.stack == b.stack
                &&& a.sel == b.sel
                &&& mon_settings_ok(a)
                &&& a.sane()
            }),
        ensures
            self.inv(),
            self.sane(),
    {
        assert forall|kk: int| 0 <= kk < o.ml@.len() implies mon_settings_ok(#[trigger] self.mons@[o.ml@[kk] as int]) by {
            assert(o.mon_ok(o.ml@[kk]));
        }
        self.lemma_mon_fields(o);
        assert forall|k: int| 0 <= k < self.ml@.len() implies (#[trigger] self.mons@[self.ml@[k] as int]).sane() by {
            assert(o.mons@[o.ml@[k] as int].sane());
        }
    }

    /// Toggles the tags `arg_tags(arg) & TAG_MASK` in the selected
    /// monitor's shown tag set, unless that leaves it empty; the selected
    /// tag and its layout and master factor follow.
    pub fn toggleview(&mut self, arg: Arg) -> (r: Relayout)
        requires
            old(self).inv(),
            old(self).sane(),
        ensures
            final(self).inv(),
            final(self).sane(),
            ({
                match (old(self).selmon, arg) {
                    (Some(m), Arg::U(u)) => {
                        let mn = old(self).mons@[m as int];
                        let nt = mn.tagset[mn.seltags as int] ^ (u & TAG_MASK);
                        if nt == 0 {
                            *final(self) == *old(self) && r == Relayout::Nothing
                        } else {
                            let a = final(self).mons@[m as int];
                            let ct = tag_index(nt, mn.curtag, 0);
                            &&& final(self).mons@.len() == old(self).mons@.len()
                            &&& forall|i: int| 0 <= i < old(self).mons@.len() && i != m ==> final(self).mons@[i] == old(self).mons@[i]
                            &&& a.tagset[mn.seltags as int] == nt
                            &&& a.tagset[1 - mn.seltags] == mn.tagset[1 - mn.seltags]
                            &&& a.curtag == ct
                            &&& a.lt[0] == mn.lts@[ct as int] && a.lt[1] == mn.lt[1]
                            &&& a.mfact == mn.mfacts@[ct as int]
                            &&& a == (Monitor { tagset: a.tagset, curtag: a.curtag, lt: a.lt, mfact: a.mfact, ..mn })
                            &&& *final(self) == (Wm { mons: final(self).mons, ..*old(self) })
                            &&& r == (Relayout::Mon { m, bar: false })
                        }
                    },
                    _ => *final(self) == *old(self) && r == Relayout::Nothing,
                }
            }),
    {
        let ghost o = *self;
        let m = match self.selmon {
            Some(m) => m,
            None => {
                return Relayout::Nothing;
            },
        };
        let bit = match arg {
            Arg::U(u) => u,
            _ => {
                return Relayout::Nothing;
            },
        };
        proof {
            self.lemma_is_mon(m);
            let k = choose|k: int| 0 <= k < self.ml@.len() && self.ml@[k] == m;
            assert(self.mons@[self.ml@[k] as int].sane());
        }
        let seltags = self.mons[m].seltags;
        let nt = self.mons[m].tagset[seltags] ^ (bit & TAG_MASK);
        if nt == 0 {
            return Relayout::Nothing;
        }
        self.mons[m].tagset[seltags] = nt;
        let cur = self.mons[m].curtag;
        let ct = tag_of(nt, cur);
        self.mons[m].curtag = ct;
        let l = self.mons[m].lts[ct];
        self.mons[m].lt[0] = l;
        let f = self.mons[m].mfacts[ct];
        self.mons[m].mfact = f;
        proof {
            self.lemma_mon_changed(o, m);
        }
        Relayout::Mon { m, bar: false }
    }

    /// Gives the selected client the tags `arg_tags(arg) & TAG_MASK`,
    /// unless they are none.
    pub fn tag(&mut self, arg: Arg) -> (r: Relayout)
        requires
            old(self).inv(),
            old(self).sane(),
        ensures
            final(self).inv(),
            final(self).sane(),
            ({
                match old(self).selmon {
                    Some(m) => match (old(self).mons@[m as int].sel, arg) {
                        (Some(c), Arg::U(u)) => if u & TAG_MASK == 0 {
                            *final(self) == *old(self) && r == Relayout::Nothing
                        } else {
                            &&& final(self).clients@ == old(self).clients@.update(c as int,
                                Client { tags: u & TAG_MASK, ..old(self).clients@[c as int] })
                            &&& *final(self) == (Wm { clients: final(self).clients, ..*old(self) })
                            &&& r == (Relayout::Mon { m, bar: false })
                        },
                        _ => *final(self) == *old(self) && r == Relayout::Nothing,
                    },
                    None => *final(self) == *old(self) && r == Relayout::Nothing,
                }
            }),
    {
        let (m, c) = match self.selected() {
            Some(p) => p,
            None => {
                return Relayout::Nothing;
            },
        };
        let bits = match arg {
            Arg::U(u) => u & TAG_MASK,
            _ => {
                return Relayout::Nothing;
            },
        };
        if bits == 0 {
            return Relayout::Nothing;
        }
        let ghost o = *self;
        self.clients[c].tags = bits;
        proof {
            self.lemma_client_changed(o, c);
        }
        Relayout::Mon { m, bar: false }
    }

    /// Toggles the tags `arg_tags(arg) & TAG_MASK` of the selected client,
    /// unless that leaves it none.
    pub fn toggletag(&mut self, arg: Arg) -> (r: Relayout)
        requires
            old(self).inv(),
            old(self).sane(),
        ensures
            final(self).inv(),
            final(self).sane(),
            ({
                match old(self).selmon {
                    Some(m) => match (old(self).mons@[m as int].sel, arg) {
                        (Some(c), Arg::U(u)) => {
                            let nt = old(self).clients@[c as int].tags ^ (u & TAG_MASK);
                            if nt == 0 {
                                *final(self) == *old(self) && r == Relayout::Nothing
                            } else {
                                &&& final(self).clients@ == old(self).clients@.update(c as int,
                                    Client { tags: nt, ..old(self).clients@[c as int] })
                                &&& *final(self) == (Wm { clients: final(self).clients, ..*old(self) })
                                &&& r == (Relayout::Mon { m, bar: false })
                            }
                        },
                        _ => *final(self) == *old(self) && r == Relayout::Nothing,
                    },
                    None => *final(self) == *old(self) && r == Relayout::Nothing,
                }
            }),
    {
        let (m, c) = match self.selected() {
            Some(p) => p,
            None => {
                return Relayout::Nothing;
            },
        };
        let bits = match arg {
            Arg::U(u) => u,
            _ => {
                return Relayout::Nothing;
            },
        };
        let nt = self.clients[c].tags ^ (bits & TAG_MASK);
        if nt == 0 {
            return Relayout::Nothing;
        }
        let ghost o = *self;
        self.clients[c].tags = nt;
        proof {
            self.lemma_client_changed(o, c);
        }
        Relayout::Mon { m, bar: false }
    }

    /// The selected monitor and its selected client, if both exist.
    pub fn selected(&self) -> (r: Option<(usize, usize)>)
        requires
            self.inv(),
        ensures
            match self.selmon {
                Some(m) => match self.mons@[m as int].sel {
                    Some(c) => r == Some((m, c)),
                    None => r is None,
                },
                None => r is None,
            },
            r matches Some((m, c)) ==> self.is_mon(m) && (m as int) < self.mons@.len()
                && self.cl(m).contains(c) && self.sl(m).contains(c)
                && (c as int) < self.clients@.len() && self.clients@[c as int].mon == m && self.clients@[c as int].alive,
    {
        match self.selmon {
            Some(m) => {
                proof {
                    self.lemma_is_mon(m);
                }
                match self.mons[m].sel {
                    Some(c) => {
                        proof {
                            let k = choose|k: int| 0 <= k < self.ml@.len() && self.ml@[k] == m;
                            assert(self.mon_consistent(self.ml@[k]));
                            let j = choose|j: int| 0 <= j < self.cl(m).len() && self.cl(m)[j] == c;
                            assert(self.clients@[self.cl(m)[j] as int].mon == m);
                            assert(self.clients@[self.cl(m)[j] as int].alive);
                        }
                        Some((m, c))
                    },
                    None => None,
                }
            },
            None => None,
        }
    }

    /// After one client's fields other than its links, monitor, liveness
    /// and geometry changed, the invariant and sanity still hold.
    pub proof fn lemma_client_changed(&self, o: Wm, c: usize)
        requires
            o.inv(),
            o.sane(),
            (c as int) < o.clients@.len(),
            *self == (Wm { clients: self.clients, ..o }),
            self.clients@.len() == o.clients@.len(),
            forall|i: int| 0 <= i < o.clients@.len() && i != c ==> #[trigger] self.clients@[i] == o.clients@[i],
            ({
                let a = self.clients@[c as int];
                let b = o.clients@[c as int];
                &&& a.next == b.next && a.snext == b.snext && a.mon == b.mon && a.alive == b.alive
                &&& a.alive ==> a.sane()
            }),
        ensures
            self.inv(),
            self.sane(),
    {
        assert forall|i: int| 0 <= i < o.clients@.len() implies (#[trigger] self.clients@[i]).next == o.clients@[i].next
            && self.clients@[i].snext == o.clients@[i].snext
            && self.clients@[i].mon == o.clients@[i].mon
            && self.clients@[i].alive == o.clients@[i].alive by {
        }
        self.lemma_client_fields(o);
        assert forall|i: int| 0 <= i < self.clients@.len() && self.clients@[i].alive implies (#[trigger] self.clients@[i]).sane() by {
            if i != c {
                assert(o.clients@[i].alive);
            }
        }
    }

    /// Selects layout `lt` (with `Some`) or the other of the monitor's two
    /// layout slots: the slots swap when no layout, or one other than the
    /// current, is asked for, so that the previous layout stays in the
    /// other slot; a chosen layout is stored in the new slot and for the
    /// selected tag, and its symbol shown. The monitor is arranged when it has a selected client, else
    /// its bar is redrawn.
    pub fn setlayout(&mut self, lt: Option<usize>) -> (r: Relayout)
        requires
            old(self).inv(),
            old(self).sane(),
            lt matches Some(l) ==> l < LAYOUTS_LEN,
        ensures
            final(self).inv(),
            final(self).sane(),
            ({
                match old(self).selmon {
                    None => *final(self) == *old(self) && r == Relayout::Nothing,
                    Some(m) => {
                        let mn = old(self).mons@[m as int];
                        let cur = mn.lt[mn.sellt as int];
                        let swap = lt is None || lt != Some(cur);
                        let sl = if swap { (1 - mn.sellt) as usize } else { mn.sellt };
                        let a = final(self).mons@[m as int];
                        let nl = match lt { Some(l) => l, None => mn.lt[sl as int] };
                        &&& final(self).mons@.len() == old(self).mons@.len()
                        &&& forall|i: int| 0 <= i < old(self).mons@.len() && i != m ==> final(self).mons@[i] == old(self).mons@[i]
                        &&& a.sellt == sl
                        &&& a.lt[sl as int] == nl
                        &&& a.lt[1 - sl] == mn.lt[1 - sl]
                        &&& a.lts@ == mn.lts@.update(mn.curtag as int, nl)
                        &&& a.ltsymbol@ == layout_symbol(nl)
                        &&& a == (Monitor { sellt: a.sellt, lt: a.lt, lts: a.lts, ltsymbol: a.ltsymbol, ..mn })
                        &&& *final(self) == (Wm { mons: final(self).mons, ..*old(self) })
                        &&& r == (if mn.sel is Some { Relayout::Mon { m, bar: false } } else { Relayout::Bar(m) })
                    },
                }
            }),
    {
        let ghost o = *self;
        let m = match self.selmon {
            Some(m) => m,
            None => {
                return Relayout::Nothing;
            },
        };
        proof {
            self.lemma_is_mon(m);
            let k = choose|k: int| 0 <= k < self.ml@.len() && self.ml@[k] == m;
            assert(self.mons@[self.ml@[k] as int].sane());
        }
        let sellt = self.mons[m].sellt;
        let cur = self.mons[m].lt[sellt];
        let swap = match lt {
            Some(l) => l != cur,
            None => true,
        };
        if swap {
            let nsl = sellt ^ 1;
            assert(nsl == 1 - sellt) by (bit_vector)
                requires nsl == sellt ^ 1, sellt < 2;
            self.mons[m].sellt = nsl;
        }
        let sl = self.mons[m].sellt;
        if let Some(l) = lt {
            self.mons[m].lt[sl] = l;
        }
        let nl = self.mons[m].lt[sl];
        let ct = self.mons[m].curtag;
        self.mons[m].lts.set(ct, nl);
        self.mons[m].ltsymbol = symbol_of(nl);
        proof {
            assert forall|i: int| 0 <= i < self.mons@[m as int].lts@.len() implies self.mons@[m as int].lts@[i] < LAYOUTS_LEN by {
                assert(mon_settings_ok(o.mons@[m as int]));
            }
            self.lemma_mon_changed(o, m);
        }
        if self.mons[m].sel.is_some() {
            Relayout::Mon { m, bar: false }
        } else {
            Relayout::Bar(m)
        }
    }

    /// Shows or hides the selected monitor's bar, remembering it for the
    /// selected tag.
    pub fn togglebar(&mut self) -> (r: Relayout)
        requires
            old(self).inv(),
            old(self).sane(),
        ensures
            final(self).inv(),
            final(self).sane(),
            ({
                match old(self).selmon {
                    None => *final(self) == *old(self) && r == Relayout::Nothing,
                    Some(m) => {
                        let mn = old(self).mons@[m as int];
                        let a = final(self).mons@[m as int];
                        &&& final(self).mons@.len() == old(self).mons@.len()
                        &&& forall|i: int| 0 <= i < old(self).mons@.len() && i != m ==> final(self).mons@[i] == old(self).mons@[i]
                        &&& a == (Monitor { showbars: a.showbars, ..bar_placed(Monitor { showbar: !mn.showbar, ..mn }, old(self).bh as int) })
                        &&& a.showbars@ == mn.showbars@.update(mn.curtag as int, !mn.showbar)
                        &&& *final(self) == (Wm { mons: final(self).mons, ..*old(self) })
                        &&& r == (Relayout::Mon { m, bar: true })
                    },
                }
            }),
    {
        let ghost o = *self;
        let m = match self.selmon {
            Some(m) => m,
            None => {
                return Relayout::Nothing;
            },
        };
        proof {
            self.lemma_is_mon(m);
            let k = choose|k: int| 0 <= k < self.ml@.len() && self.ml@[k] == m;
            assert(self.mons@[self.ml@[k] as int].sane());
        }
        let sb = !self.mons[m].showbar;
        self.mons[m].showbar = sb;
        let ct = self.mons[m].curtag;
        self.mons[m].showbars.set(ct, sb);
        self.update_bar_pos(m);
        proof {
            self.lemma_mon_changed(o, m);
        }
        Relayout::Mon { m, bar: true }
    }

    /// Makes the selected client float, or tile, unless its size is fixed;
    /// a client that now floats is resized to its own geometry (so its
    /// size hints apply).
    pub fn togglefloating<A: Fn(Aspect, i32, i32) -> (i32, i32)>(&mut self, aspect: &A) -> (r: Relayout)
        requires
            old(self).inv(),
            old(self).sane(),
            aspect_ok(aspect),
        ensures
            final(self).inv(),
            final(self).sane(),
            ({
                match old(self).selmon {
                    Some(m) => match old(self).mons@[m as int].sel {
                        Some(c) => {
                            let cl = old(self).clients@[c as int];
                            if cl.isfixed {
                                *final(self) == *old(self) && r == Relayout::Nothing
                            } else {
                                let fl = Client { isfloating: !cl.isfloating, ..cl };
                                &&& *final(self) == (Wm { clients: final(self).clients, ..*old(self) })
                                &&& final(self).clients@.len() == old(self).clients@.len()
                                &&& forall|i: int| 0 <= i < old(self).clients@.len() && i != c ==> final(self).clients@[i] == old(self).clients@[i]
                                &&& (!cl.isfloating ==> resize_result(aspect, fl, old(self).mons@[cl.mon as int], old(self).sw as int,
                                    old(self).sh as int, old(self).bh as int, cl.x as int, cl.y as int, cl.w as int, cl.h as int, false,
                                    final(self).clients@[c as int]))
                                &&& (cl.isfloating ==> final(self).clients@[c as int] == fl)
                                &&& r == (Relayout::Mon { m, bar: false })
                            }
                        },
                        None => *final(self) == *old(self) && r == Relayout::Nothing,
                    },
                    None => *final(self) == *old(self) && r == Relayout::Nothing,
                }
            }),
    {
        let (m, c) = match self.selected() {
            Some(p) => p,
            None => {
                return Relayout::Nothing;
            },
        };
        if self.clients[c].isfixed {
            return Relayout::Nothing;
        }
        let ghost o = *self;
        let fl = !self.clients[c].isfloating || self.clients[c].isfixed;
        self.clients[c].isfloating = fl;
        proof {
            assert(o.clients@[c as int].sane());
            self.lemma_client_changed(o, c);
            self.lemma_is_mon_sane(m);
        }
        if fl {
            let x = self.clients[c].x;
            let y = self.clients[c].y;
            let w = self.clients[c].w;
            let h = self.clients[c].h;
            assert(self.clients@[c as int].sane());
            self.resize(c, x, y, w, h, false, aspect);
        }
        Relayout::Mon { m, bar: false }
    }

    /// Moves the focus from the selected client to the next (`dir` > 0) or
    /// previous visible client in tiling order, wrapping around, unless the
    /// selected client's size is fixed and the layout arranges. Returns the
    /// focus change, and the monitor to restack.
    pub fn focusstack(&mut self, dir: i32) -> (r: Option<(FocusChange, usize)>)
        requires
            old(self).inv(),
            old(self).sane(),
        ensures
            final(self).inv(),
            final(self).sane(),
            final(self).ml@ == old(self).ml@,
            final(self).cls@ == old(self).cls@,
            r is None ==> *final(self) == *old(self),
            ({
                match old(self).selmon {
                    Some(m) => match old(self).mons@[m as int].sel {
                        Some(s) => {
                            let mn = old(self).mons@[m as int];
                            let blocked = old(self).clients@[s as int].isfixed && arranges(mn.lt[mn.sellt as int]);
                            let nx = stack_step(old(self).clients@, mn, old(self).cl(m), s, dir);
                            &&& (blocked || nx is None) ==> r is None
                            &&& (!blocked && nx is Some) ==> (r matches Some((f, mm)) && mm == m
                                && f.focused == focus_target(*old(self), m, nx))
                        },
                        None => r is None,
                    },
                    None => r is None,
                }
            }),
    {
        let (m, sel) = match self.selected() {
            Some(p) => p,
            None => {
                return None;
            },
        };
        proof {
            self.lemma_is_mon(m);
        }
        let lt = self.mons[m].lt[self.mons[m].sellt];
        if self.clients[sel].isfixed && has_arrange(lt) {
            return None;
        }
        let l = self.client_list(m);
        let ghost cs = self.clients@;
        let ghost mn = self.mons@[m as int];
        proof {
            lemma_pos(l@, sel);
            let k = choose|k: int| 0 <= k < self.ml@.len() && self.ml@[k] == m;
            assert(self.mon_ok(self.ml@[k]));
        }
        let ghost p = pos(l@, sel);
        let mut next: Option<usize> = None;
        if dir > 0 {
            let pi = index_of(&l, sel);
            next = self.first_visible_in(&l, m, pi + 1);
            if next.is_none() {
                next = self.first_visible_in(&l, m, 0);
            }
        } else {
            let pi = index_of(&l, sel);
            let mut j: usize = 0;
            while j < pi
                invariant
                    0 <= j <= pi,
                    pi as int == p,
                    l@ == self.cl(m),
                    (m as int) < self.mons@.len(),
                    self.mons@[m as int].seltags < 2,
                    forall|q: int| 0 <= q < l@.len() ==> (l@[q] as int) < self.clients@.len(),
                    0 <= p < l@.len(),
                    next == last_visible(self.clients@, self.mons@[m as int], l@, j as int),
                decreases pi - j,
            {
                if isvisible(&self.clients[l[j]], &self.mons[m]) {
                    next = Some(l[j]);
                }
                j += 1;
            }
            if next.is_none() {
                let mut j2: usize = 0;
                while j2 < l.len()
                    invariant
                        0 <= j2 <= l@.len(),
                        l@ == self.cl(m),
                        (m as int) < self.mons@.len(),
                        self.mons@[m as int].seltags < 2,
                        forall|q: int| 0 <= q < l@.len() ==> (l@[q] as int) < self.clients@.len(),
                        next == last_visible(self.clients@, self.mons@[m as int], l@, j2 as int),
                    decreases l@.len() - j2,
                {
                    if isvisible(&self.clients[l[j2]], &self.mons[m]) {
                        next = Some(l[j2]);
                    }
                    j2 += 1;
                }
            }
        }
        assert(next == stack_step(cs, mn, l@, sel, dir));
        match next {
            Some(n) => {
                proof {
                    if dir > 0 {
                        lemma_first_visible_in(cs, mn, l@, p + 1);
                        lemma_first_visible_in(cs, mn, l@, 0);
                    } else {
                        lemma_last_visible_in(cs, mn, l@, p);
                        lemma_last_visible_in(cs, mn, l@, l@.len() as int);
                    }
                    assert(self.cl(m).contains(n));
                    let k = choose|k: int| 0 <= k < self.ml@.len() && self.ml@[k] == m;
                    assert(managed(*self, n));
                }
                let f = self.focus(Some(n));
                Some((f, m))
            },
            None => None,
        }
    }

    /// The first client of `l` (monitor `m`'s tiling list) from position
    /// `i` on that shows on `m`.
    fn first_visible_in(&self, l: &Vec<usize>, m: usize, i: usize) -> (r: Option<usize>)
        requires
            l@ == self.cl(m),
            (m as int) < self.mons@.len(),
            self.mons@[m as int].seltags < 2,
            forall|q: int| 0 <= q < l@.len() ==> (l@[q] as int) < self.clients@.len(),
            i <= l@.len(),
        ensures
            r == first_visible(self.clients@, self.mons@[m as int], l@, i as int),
    {
        let mut j: usize = l.len();
        let mut r: Option<usize> = None;
        while j > i
            invariant
                i <= j <= l@.len(),
                0 <= i,
                (m as int) < self.mons@.len(),
                self.mons@[m as int].seltags < 2,
                forall|q: int| 0 <= q < l@.len() ==> (l@[q] as int) < self.clients@.len(),
                r == first_visible(self.clients@, self.mons@[m as int], l@, j as int),
            decreases j,
        {
            j -= 1;
            if isvisible(&self.clients[l[j]], &self.mons[m]) {
                r = Some(l[j]);
            }
        }
        r
    }

    /// Moves the focus to the monitor next to the selected one in
    /// direction `dir`, when there are at least two: returns the client
    /// that lost the focus and the focus change on the new monitor.
    pub fn focusmon(&mut self, dir: i32) -> (r: Option<(Option<usize>, FocusChange)>)
        requires
            old(self).inv(),
            old(self).sane(),
        ensures
            final(self).inv(),
            final(self).sane(),
            final(self).ml@ == old(self).ml@,
            final(self).cls@ == old(self).cls@,
            r is None ==> *final(self) == *old(self),
            (old(self).ml@.len() < 2 || old(self).selmon is None) ==> r is None,
            (old(self).ml@.len() >= 2 && old(self).selmon is Some) ==> {
                let cur = old(self).selmon.unwrap();
                let t = dir_mon(old(self).ml@, cur, dir);
                &&& t == cur ==> r is None
                &&& t != cur ==> (r matches Some((u, f)) && u == old(self).mons@[cur as int].sel
                    && final(self).selmon == (match f.focused { Some(x) => Some(old(self).clients@[x as int].mon), None => Some(t) })
                    && f.focused == first_visible(old(self).clients@, old(self).mons@[t as int], old(self).sl(t), 0))
            },
    {
        let n = self.mon_list().len();
        if n < 2 {
            return None;
        }
        let target = match self.dirtomon(dir) {
            Some(t) => t,
            None => {
                return None;
            },
        };
        if Some(target) == self.selmon {
            return None;
        }
        let ghost o = *self;
        let cur = self.selmon.unwrap();
        let unfocused = self.mons[cur].sel;
        proof {
            lemma_pos(o.ml@, cur);
            let p = pos(o.ml@, cur);
            assert(o.ml@.contains(target)) by {
                if dir > 0 {
                    if p + 1 < o.ml@.len() {
                        assert(o.ml@[p + 1] == target);
                    } else {
                        assert(o.ml@[0] == target);
                    }
                } else {
                    if p > 0 {
                        assert(o.ml@[p - 1] == target);
                    } else {
                        assert(o.ml@[o.ml@.len() - 1] == target);
                    }
                }
            }
        }
        self.selmon = Some(target);
        proof {
            assert forall|k: int| 0 <= k < self.ml@.len() implies self.mon_ok(#[trigger] self.ml@[k]) by {
                assert(o.mon_ok(o.ml@[k]));
            }
            assert forall|k: int| 0 <= k < self.ml@.len() implies self.mon_consistent(#[trigger] self.ml@[k]) by {
                assert(o.mon_consistent(o.ml@[k]));
            }
        }
        let f = self.focus(None);
        Some((unfocused, f))
    }

    /// Sends the managed client `c` to monitor `m`: it leaves its monitor's
    /// lists (whose selection moves on if it was selected), takes `m`'s
    /// shown tags, and heads `m`'s lists. Every monitor is then arranged.
    #[verifier::rlimit(100)]
    #[verifier::spinoff_prover]
    pub fn sendmon(&mut self, c: usize, m: usize) -> (r: Relayout)
        requires
            old(self).inv(),
            old(self).sane(),
            managed(*old(self), c),
            old(self).is_mon(m),
        ensures
            final(self).inv(),
            final(self).sane(),
            final(self).ml@ == old(self).ml@,
            old(self).clients@[c as int].mon == m ==> *final(self) == *old(self) && r == Relayout::Nothing,
            old(self).clients@[c as int].mon != m ==> {
                let om = old(self).clients@[c as int].mon;
                let mn = old(self).mons@[m as int];
                &&& r == Relayout::All
                &&& final(self).clients@[c as int].mon == m
                &&& final(self).clients@[c as int].tags == mn.tagset[mn.seltags as int]
                &&& final(self).cl(m) == seq![c] + old(self).cl(m)
                &&& final(self).sl(m) == seq![c] + old(self).sl(m)
                &&& final(self).cl(om) == old(self).cl(om).remove(pos(old(self).cl(om), c))
                &&& final(self).sl(om) == old(self).sl(om).remove(pos(old(self).sl(om), c))
            },
    {
        let ghost o = *self;
        proof {
            o.lemma_managed(c);
        }
        let om = self.clients[c].mon;
        if om == m {
            return Relayout::Nothing;
        }
        self.unlist(c);
        let ghost o2 = *self;
        self.relist(c, m, false);
        proof {
            assert(self.cl(m) == seq![c] + o.cl(m));
            assert(self.sl(m) == seq![c] + o.sl(m));
            assert(self.cl(om) == o.cl(om).remove(pos(o.cl(om), c)));
            assert(self.sl(om) == o.sl(om).remove(pos(o.sl(om), c)));
            assert forall|mm: usize| mm != m && mm != om && (mm as int) < o.mons@.len() implies
                #[trigger] self.cl(mm) == o.cl(mm) && self.sl(mm) == o.sl(mm) && self.mons@[mm as int].sel == o.mons@[mm as int].sel by {
                assert(o2.mons@[mm as int] == o.mons@[mm as int]);
            }
            self.lemma_sendmon_consistent(o, c, om, m);
        }
        Relayout::All
    }


    /// Takes the managed client `c` out of both lists of its monitor,
    /// whose selection moves on if it was `c`.
    #[verifier::rlimit(100)]
    #[verifier::spinoff_prover]
    pub(crate) fn unlist(&mut self, c: usize)
        requires
            old(self).inv(),
            old(self).sane(),
            managed(*old(self), c),
        ensures
            final(self).wf(),
            final(self).sane(),
            final(self).ml@ == old(self).ml@,
            final(self).selmon == old(self).selmon,
            final(self).sw == old(self).sw && final(self).sh == old(self).sh && final(self).bh == old(self).bh,
            ({
                let om = old(self).clients@[c as int].mon;
                let cl = old(self).cl(om);
                let sl = old(self).sl(om);
                &&& final(self).cls@ == old(self).cls@.update(om as int, cl.remove(pos(cl, c)))
                &&& final(self).sls@ == old(self).sls@.update(om as int, sl.remove(pos(sl, c)))
                &&& final(self).mons@.len() == old(self).mons@.len()
                &&& forall|i: int| 0 <= i < old(self).mons@.len() && i != om ==> #[trigger] final(self).mons@[i] == old(self).mons@[i]
                &&& final(self).mons@[om as int] == (Monitor { clients: final(self).mons@[om as int].clients,
                    stack: final(self).mons@[om as int].stack, sel: final(self).mons@[om as int].sel, ..old(self).mons@[om as int] })
                &&& in_list(final(self).mons@[om as int].sel, final(self).sl(om))
                &&& final(self).clients@.len() == old(self).clients@.len()
                &&& forall|i: int| 0 <= i < old(self).clients@.len() ==> (#[trigger] final(self).clients@[i]) == (Client {
                    next: final(self).clients@[i].next, snext: final(self).clients@[i].snext, ..old(self).clients@[i] })
                &&& forall|k: int| 0 <= k < final(self).ml@.len() ==> !final(self).cl(final(self).ml@[k]).contains(c)
                    && !final(self).sl(final(self).ml@[k]).contains(c)
            }),
    {
        let ghost o = *self;
        proof {
            o.lemma_managed(c);
        }
        let om = self.clients[c].mon;
        self.detach(c);
        let ghost o1 = *self;
        self.detach_stack(c);
        proof {
            lemma_pos(o.sl(om), c);
            lemma_removed_absent(o.sl(om), c);
            lemma_removed_absent(o.cl(om), c);
            o.lemma_is_mon(om);
            let nsl = o.sl(om).remove(pos(o.sl(om), c));
            assert(in_list(self.mons@[om as int].sel, self.sl(om))) by {
                assert(o.mon_consistent(om)) by {
                    let k = choose|k: int| 0 <= k < o.ml@.len() && o.ml@[k] == om;
                    assert(o.mon_consistent(o.ml@[k]));
                }
                if o1.mons@[om as int].sel == Some(c) {
                    lemma_first_visible_in(o1.clients@, o1.mons@[om as int], nsl, 0);
                } else if o1.mons@[om as int].sel is Some {
                    let s0 = o1.mons@[om as int].sel.unwrap();
                    assert(o.cl(om).contains(s0));
                    assert(o.sl(om).contains(s0));
                    assert(nsl.contains(s0));
                }
            }
            assert(forall|k: int| 0 <= k < self.ml@.len() ==> !self.cl(self.ml@[k]).contains(c)
                && !self.sl(self.ml@[k]).contains(c)) by {
                assert forall|k: int| 0 <= k < self.ml@.len() implies !self.cl(self.ml@[k]).contains(c)
                    && !self.sl(self.ml@[k]).contains(c) by {
                    let mm = self.ml@[k];
                    if mm != om {
                        assert(o.mon_ok(o.ml@[k]));
                        if o.cl(mm).contains(c) {
                            let j = choose|j: int| 0 <= j < o.cl(mm).len() && o.cl(mm)[j] == c;
                            assert(o.clients@[o.cl(mm)[j] as int].mon == mm);
                        }
                        if o.sl(mm).contains(c) {
                            let j = choose|j: int| 0 <= j < o.sl(mm).len() && o.sl(mm)[j] == c;
                            assert(o.clients@[o.sl(mm)[j] as int].mon == mm);
                        }
                    }
                }
            }
            assert(self.sane()) by {
                assert forall|i: int| 0 <= i < self.clients@.len() && self.clients@[i].alive implies (#[trigger] self.clients@[i]).sane() by {
                    assert(o.clients@[i].alive);
                    assert(o.clients@[i].sane());
                }
                assert forall|k: int| 0 <= k < self.ml@.len() implies (#[trigger] self.mons@[self.ml@[k] as int]).sane() by {
                    assert(o.mons@[o.ml@[k] as int].sane());
                }
            }
        }
    }

    /// Gives client `c`, in no list, monitor `m` and its shown tags, and
    /// puts it at the head of both of `m`'s lists.
    #[verifier::rlimit(100)]
    #[verifier::spinoff_prover]
    pub(crate) fn relist(&mut self, c: usize, m: usize, keep_tags: bool)
        requires
            old(self).wf(),
            old(self).sane(),
            old(self).is_mon(m),
            (c as int) < old(self).clients@.len(),
            old(self).clients@[c as int].alive,
            forall|k: int| 0 <= k < old(self).ml@.len() ==> !old(self).cl(old(self).ml@[k]).contains(c)
                && !old(self).sl(old(self).ml@[k]).contains(c),
        ensures
            final(self).wf(),
            final(self).sane(),
            final(self).ml@ == old(self).ml@,
            final(self).selmon == old(self).selmon,
            final(self).cls@ == old(self).cls@.update(m as int, seq![c] + old(self).cl(m)),
            final(self).sls@ == old(self).sls@.update(m as int, seq![c] + old(self).sl(m)),
            final(self).mons@.len() == old(self).mons@.len(),
            forall|i: int| 0 <= i < old(self).mons@.len() && i != m ==> #[trigger] final(self).mons@[i] == old(self).mons@[i],
            final(self).mons@[m as int] == (Monitor { clients: final(self).mons@[m as int].clients,
                stack: final(self).mons@[m as int].stack, ..old(self).mons@[m as int] }),
            final(self).sw == old(self).sw && final(self).sh == old(self).sh && final(self).bh == old(self).bh,
            final(self).clients@[c as int].mon == m,
            final(self).clients@[c as int].tags == if keep_tags { old(self).clients@[c as int].tags } else {
                old(self).mons@[m as int].tagset[old(self).mons@[m as int].seltags as int] },
            final(self).clients@.len() == old(self).clients@.len(),
            forall|i: int| 0 <= i < old(self).clients@.len() ==> (#[trigger] final(self).clients@[i]) == (Client {
                mon: final(self).clients@[i].mon, tags: final(self).clients@[i].tags,
                next: final(self).clients@[i].next, snext: final(self).clients@[i].snext, ..old(self).clients@[i] }),
            forall|i: int| 0 <= i < old(self).clients@.len() && i != c ==> (#[trigger] final(self).clients@[i]).mon == old(self).clients@[i].mon
                && final(self).clients@[i].tags == old(self).clients@[i].tags,
    {
        let ghost o = *self;
        proof {
            o.lemma_is_mon(m);
        }
        let tags = if keep_tags { self.clients[c].tags } else { self.mons[m].tagset[self.mons[m].seltags] };
        self.clients[c].mon = m;
        self.clients[c].tags = tags;
        proof {
            self.lemma_unlisted_client(o, c);
            assert(self.cl(m) == o.cl(m));
            assert(self.sl(m) == o.sl(m));
            let k = choose|k: int| 0 <= k < o.ml@.len() && o.ml@[k] == m;
            assert(!self.cl(m).contains(c));
            assert(!self.sl(m).contains(c));
        }
        self.attach(c);
        self.attach_stack(c);
        proof {
            assert forall|i: int| 0 <= i < self.clients@.len() && self.clients@[i].alive implies (#[trigger] self.clients@[i]).sane() by {
                assert(o.clients@[i].alive);
                assert(o.clients@[i].sane());
            }
            assert forall|k: int| 0 <= k < self.ml@.len() implies (#[trigger] self.mons@[self.ml@[k] as int]).sane() by {
                assert(o.mons@[o.ml@[k] as int].sane());
            }
        }
    }

    /// After client `c` moved from monitor `om`'s lists to the head of
    /// monitor `m`'s, the lists are consistent.
    pub(crate) proof fn lemma_sendmon_consistent(&self, o: Wm, c: usize, om: usize, m: usize)
        requires
            o.inv(),
            o.is_mon(m),
            o.is_mon(om),
            om != m,
            o.cl(om).contains(c),
            o.sl(om).contains(c),
            self.wf(),
            self.ml@ == o.ml@,
            self.mons@.len() == o.mons@.len(),
            self.cl(m) == seq![c] + o.cl(m),
            self.sl(m) == seq![c] + o.sl(m),
            self.cl(om) == o.cl(om).remove(pos(o.cl(om), c)),
            self.sl(om) == o.sl(om).remove(pos(o.sl(om), c)),
            forall|mm: usize| mm != m && mm != om && (mm as int) < o.mons@.len() ==>
                #[trigger] self.cl(mm) == o.cl(mm) && self.sl(mm) == o.sl(mm) && self.mons@[mm as int].sel == o.mons@[mm as int].sel,
            self.mons@[m as int].sel == o.mons@[m as int].sel,
            in_list(self.mons@[om as int].sel, self.sl(om)),
        ensures
            self.consistent(),
    {
        o.lemma_is_mon(m);
        o.lemma_is_mon(om);
        let cl = o.cl(om);
        let sl = o.sl(om);
        lemma_removed_absent(cl, c);
        lemma_removed_absent(sl, c);
        assert forall|k: int| 0 <= k < self.ml@.len() implies self.mon_consistent(#[trigger] self.ml@[k]) by {
            let mm = self.ml@[k];
            assert(o.mon_consistent(o.ml@[k]));
            o.lemma_is_mon(mm);
            if mm == m {
                assert forall|x: usize| self.cl(mm).contains(x) <==> self.sl(mm).contains(x) by {
                    if x != c {
                        if self.cl(mm).contains(x) {
                            let j = choose|j: int| 0 <= j < self.cl(mm).len() && self.cl(mm)[j] == x;
                            assert(o.cl(m)[j - 1] == x);
                            assert(o.sl(m).contains(x));
                            let q = choose|q: int| 0 <= q < o.sl(m).len() && o.sl(m)[q] == x;
                            assert(self.sl(mm)[q + 1] == x);
                        }
                        if self.sl(mm).contains(x) {
                            let j = choose|j: int| 0 <= j < self.sl(mm).len() && self.sl(mm)[j] == x;
                            assert(o.sl(m)[j - 1] == x);
                            assert(o.cl(m).contains(x));
                            let q = choose|q: int| 0 <= q < o.cl(m).len() && o.cl(m)[q] == x;
                            assert(self.cl(mm)[q + 1] == x);
                        }
                    } else {
                        assert(self.cl(mm)[0] == c);
                        assert(self.sl(mm)[0] == c);
                    }
                }
                if o.mons@[m as int].sel is Some {
                    let s0 = o.mons@[m as int].sel.unwrap();
                    let q = choose|q: int| 0 <= q < o.cl(m).len() && o.cl(m)[q] == s0;
                    assert(self.cl(mm)[q + 1] == s0);
                }
            } else if mm == om {
                assert forall|x: usize| self.cl(mm).contains(x) <==> self.sl(mm).contains(x) by {
                    if x != c {
                        assert(self.cl(mm).contains(x) <==> cl.contains(x));
                        assert(self.sl(mm).contains(x) <==> sl.contains(x));
                    }
                }
                if self.mons@[om as int].sel is Some {
                    let s0 = self.mons@[om as int].sel.unwrap();
                    assert(self.sl(mm).contains(s0));
                }
            } else {
                assert(self.cl(mm) == o.cl(mm) && self.sl(mm) == o.sl(mm) && self.mons@[mm as int].sel == o.mons@[mm as int].sel);
            }
        }
    }

    /// Client `c`, alive and in no list, may change: the invariant holds.
    pub proof fn lemma_unlisted_client(&self, o: Wm, c: usize)
        requires
            o.wf(),
            (c as int) < o.clients@.len(),
            forall|k: int| 0 <= k < o.ml@.len() ==> !o.cl(o.ml@[k]).contains(c) && !o.sl(o.ml@[k]).contains(c),
            *self == (Wm { clients: self.clients, ..o }),
            self.clients@.len() == o.clients@.len(),
            forall|i: int| 0 <= i < o.clients@.len() && i != c ==> #[trigger] self.clients@[i] == o.clients@[i],
        ensures
            self.wf(),
    {
        assert forall|k: int| 0 <= k < self.ml@.len() implies self.mon_ok(#[trigger] self.ml@[k]) by {
            let mm = self.ml@[k];
            assert(o.mon_ok(mm));
            let cl = o.cl(mm);
            let sl = o.sl(mm);
            assert forall|j: int| 0 <= j < cl.len() implies #[trigger] self.clients@[cl[j] as int] == o.clients@[cl[j] as int] by {
                assert(cl[j] != c) by {
                    if cl[j] == c {
                        assert(cl.contains(c));
                    }
                }
            }
            assert forall|j: int| 0 <= j < sl.len() implies #[trigger] self.clients@[sl[j] as int] == o.clients@[sl[j] as int] by {
                assert(sl[j] != c) by {
                    if sl[j] == c {
                        assert(sl.contains(c));
                    }
                }
            }
            assert(chained(self.clients@, self.mons@[mm as int].clients, cl, false)) by {
                assert forall|j: int| 0 <= j < cl.len() implies crate::wm::model::link(#[trigger] self.clients@[cl[j] as int], false)
                    == crate::links::next_in(cl, j) by {
                    assert(self.clients@[cl[j] as int] == o.clients@[cl[j] as int]);
                }
            }
            assert(chained(self.clients@, self.mons@[mm as int].stack, sl, true)) by {
                assert forall|j: int| 0 <= j < sl.len() implies crate::wm::model::link(#[trigger] self.clients@[sl[j] as int], true)
                    == crate::links::next_in(sl, j) by {
                    assert(self.clients@[sl[j] as int] == o.clients@[sl[j] as int]);
                }
            }
        }
    }

    /// Sends the selected client to the monitor next to the selected one
    /// in direction `dir`, when there are at least two.
    pub fn tagmon(&mut self, dir: i32) -> (r: Relayout)
        requires
            old(self).inv(),
            old(self).sane(),
        ensures
            final(self).inv(),
            final(self).sane(),
            final(self).ml@ == old(self).ml@,
            ({
                match old(self).selmon {
                    Some(m) => match old(self).mons@[m as int].sel {
                        Some(c) => if old(self).ml@.len() < 2 {
                            *final(self) == *old(self) && r == Relayout::Nothing
                        } else {
                            let t = dir_mon(old(self).ml@, m, dir);
                            &&& t == m ==> *final(self) == *old(self) && r == Relayout::Nothing
                            &&& t != m ==> r == Relayout::All && final(self).clients@[c as int].mon == t
                                && final(self).cl(t) == seq![c] + old(self).cl(t)
                        },
                        None => *final(self) == *old(self) && r == Relayout::Nothing,
                    },
                    None => *final(self) == *old(self) && r == Relayout::Nothing,
                }
            }),
    {
        let (m, c) = match self.selected() {
            Some(p) => p,
            None => {
                return Relayout::Nothing;
            },
        };
        if self.mon_list().len() < 2 {
            return Relayout::Nothing;
        }
        let target = self.dirtomon(dir).unwrap();
        proof {
            lemma_pos(self.ml@, m);
            let p = pos(self.ml@, m);
            assert(self.ml@.contains(target)) by {
                if dir > 0 {
                    if p + 1 < self.ml@.len() {
                        assert(self.ml@[p + 1] == target);
                    } else {
                        assert(self.ml@[0] == target);
                    }
                } else {
                    if p > 0 {
                        assert(self.ml@[p - 1] == target);
                    } else {
                        assert(self.ml@[self.ml@.len() - 1] == target);
                    }
                }
            }
            let k = choose|k: int| 0 <= k < self.ml@.len() && self.ml@[k] == m;
            assert(managed(*self, c));
        }
        self.sendmon(c, target)
    }

    /// Moves the selected tiled client to the head of the tiling list (the
    /// master area), or, when it is there already, the next tiled client;
    /// only when the layout arranges. Returns the focus change and the
    /// monitor to arrange.
    #[verifier::rlimit(100)]
    #[verifier::spinoff_prover]
    pub fn zoom(&mut self) -> (r: Option<(FocusChange, usize)>)
        requires
            old(self).inv(),
            old(self).sane(),
        ensures
            final(self).inv(),
            final(self).sane(),
            final(self).ml@ == old(self).ml@,
            r is None ==> *final(self) == *old(self),
            ({
                match old(self).selmon {
                    Some(m) => match old(self).mons@[m as int].sel {
                        Some(s) => {
                            let mn = old(self).mons@[m as int];
                            let cs = old(self).clients@;
                            let l = old(self).cl(m);
                            let c = if first_tiled(cs, mn, l, 0) == Some(s) { first_tiled(cs, mn, l, pos(l, s) + 1) } else { Some(s) };
                            if !arranges(mn.lt[mn.sellt as int]) || cs[s as int].isfloating || c is None {
                                r is None
                            } else {
                                let x = c.unwrap();
                                &&& final(self).cl(m) == seq![x] + l.remove(pos(l, x))
                                &&& r matches Some((f, mm)) && mm == m
                                    && (visible(cs[x as int], mn) ==> f.focused == c)
                            }
                        },
                        None => r is None,
                    },
                    None => r is None,
                }
            }),
    {
        let (m, sel) = match self.selected() {
            Some(p) => p,
            None => {
                return None;
            },
        };
        proof {
            self.lemma_is_mon(m);
            lemma_pos(self.cl(m), sel);
        }
        let lt = self.mons[m].lt[self.mons[m].sellt];
        if !has_arrange(lt) || self.clients[sel].isfloating {
            return None;
        }
        let ghost l = self.cl(m);
        let ghost p = pos(l, sel);
        let first = self.nexttiled(self.mons[m].clients, m, Ghost(0));
        let mut c = Some(sel);
        if first == Some(sel) {
            assert(self.clients@[l[p] as int].next == crate::links::next_in(l, p));
            c = self.nexttiled(self.clients[sel].next, m, Ghost(p + 1));
        }
        match c {
            Some(x) => {
                proof {
                    if first == Some(sel) {
                        lemma_first_tiled_in(self.clients@, self.mons@[m as int], l, p + 1);
                    } else {
                        assert(self.cl(m).contains(sel));
                    }

                    assert(l.contains(x));
                    assert(self.clients@[x as int].mon == m) by {
                        let k = choose|k: int| 0 <= k < self.ml@.len() && self.ml@[k] == m;
                        assert(self.mon_ok(self.ml@[k]));
                        let j = choose|j: int| 0 <= j < l.len() && l[j] == x;
                    }
                    assert(managed(*self, x)) by {
                        let k = choose|k: int| 0 <= k < self.ml@.len() && self.ml@[k] == m;
                    }
                }
                let f = self.pop(x);
                Some((f, m))
            },
            None => None,
        }
    }

    /// Moves the managed client `x` to the head of its monitor's tiling
    /// list and focuses it.
    pub fn pop(&mut self, x: usize) -> (f: FocusChange)
        requires
            old(self).inv(),
            old(self).sane(),
            managed(*old(self), x),
        ensures
            final(self).inv(),
            final(self).sane(),
            final(self).ml@ == old(self).ml@,
            ({
                let m = old(self).clients@[x as int].mon;
                let l = old(self).cl(m);
                &&& final(self).cl(m) == seq![x] + l.remove(pos(l, x))
                &&& (old(self).selmon matches Some(sm) && visible(old(self).clients@[x as int], old(self).mons@[sm as int]))
                    ==> f.focused == Some(x)
            }),
    {
        let ghost o = *self;
        self.move_to_front(x);
        let ghost o2 = *self;
        proof {
            o.lemma_managed(x);
            let m = o.clients@[x as int].mon;
            assert(managed(*self, x)) by {
                let k = choose|k: int| 0 <= k < self.ml@.len() && self.ml@[k] == m;
                assert(self.cl(m)[0] == x);
            }
        }
        let f = self.focus(Some(x));
        f
    }

    /// Moves the managed client `x` to the head of its monitor's tiling
    /// list.
    #[verifier::rlimit(100)]
    #[verifier::spinoff_prover]
    fn move_to_front(&mut self, x: usize)
        requires
            old(self).inv(),
            old(self).sane(),
            managed(*old(self), x),
        ensures
            final(self).inv(),
            final(self).sane(),
            final(self).ml@ == old(self).ml@,
            final(self).selmon == old(self).selmon,
            final(self).clients@.len() == old(self).clients@.len(),
            final(self).mons@.len() == old(self).mons@.len(),
            forall|i: int| 0 <= i < old(self).clients@.len() ==> (#[trigger] final(self).clients@[i]).tags == old(self).clients@[i].tags,
            forall|i: int| 0 <= i < old(self).mons@.len() ==> (#[trigger] final(self).mons@[i]).tagset == old(self).mons@[i].tagset
                && final(self).mons@[i].seltags == old(self).mons@[i].seltags,
            ({
                let m = old(self).clients@[x as int].mon;
                let l = old(self).cl(m);
                &&& final(self).cl(m) == seq![x] + l.remove(pos(l, x))
                &&& final(self).clients@[x as int].mon == m
            }),
    {
        let ghost o = *self;
        proof {
            o.lemma_managed(x);
            lemma_pos(o.cl(o.clients@[x as int].mon), x);
        }
        let m = self.clients[x].mon;
        self.detach(x);
        proof {
            lemma_removed_absent(o.cl(m), x);
        }
        self.attach(x);
        proof {
            assert(self.cls@ =~= o.cls@.update(m as int, seq![x] + o.cl(m).remove(pos(o.cl(m), x))));
            self.lemma_pop_consistent(o, x, m);
        }
    }

    /// After client `x` moved to the head of monitor `m`'s tiling list, the
    /// lists are consistent and sane as before.
    proof fn lemma_pop_consistent(&self, o: Wm, x: usize, m: usize)
        requires
            o.inv(),
            o.sane(),
            o.is_mon(m),
            o.cl(m).contains(x),
            self.wf(),
            self.ml@ == o.ml@,
            self.sls@ == o.sls@,
            self.cls@ == o.cls@.update(m as int, seq![x] + o.cl(m).remove(pos(o.cl(m), x))),
            self.mons@.len() == o.mons@.len(),
            forall|i: int| 0 <= i < o.mons@.len() ==> (#[trigger] self.mons@[i]).sel == o.mons@[i].sel,
            forall|i: int| 0 <= i < o.mons@.len() ==> (#[trigger] self.mons@[i]).sane() == o.mons@[i].sane(),
            self.clients@.len() == o.clients@.len(),
            forall|i: int| 0 <= i < o.clients@.len() ==> (#[trigger] self.clients@[i]).sane() == o.clients@[i].sane()
                && self.clients@[i].alive == o.clients@[i].alive,
            self.sw == o.sw && self.sh == o.sh && self.bh == o.bh && self.blw == o.blw,
        ensures
            self.consistent(),
            self.sane(),
    {
        o.lemma_is_mon(m);
        let l = o.cl(m);
        lemma_removed_absent(l, x);
        assert forall|k: int| 0 <= k < self.ml@.len() implies self.mon_consistent(#[trigger] self.ml@[k]) by {
            let mm = self.ml@[k];
            assert(o.mon_consistent(o.ml@[k]));
            if mm == m {
                assert forall|y: usize| self.cl(mm).contains(y) <==> l.contains(y) by {
                    let n = seq![x] + l.remove(pos(l, x));
                    if y == x {
                        assert(n[0] == x);
                    } else {
                        if n.contains(y) {
                            let j = choose|j: int| 0 <= j < n.len() && n[j] == y;
                            assert(l.remove(pos(l, x))[j - 1] == y);
                        }
                        if l.contains(y) {
                            assert(l.remove(pos(l, x)).contains(y));
                            let j = choose|j: int| 0 <= j < l.remove(pos(l, x)).len() && l.remove(pos(l, x))[j] == y;
                            assert(n[j + 1] == y);
                        }
                    }
                }
            }
        }
        assert forall|i: int| 0 <= i < self.clients@.len() && self.clients@[i].alive implies (#[trigger] self.clients@[i]).sane() by {
            assert(o.clients@[i].alive);
            assert(o.clients@[i].sane());
        }
        assert forall|k: int| 0 <= k < self.ml@.len() implies (#[trigger] self.mons@[self.ml@[k] as int]).sane() by {
            assert(o.mons@[o.ml@[k] as int].sane());
        }
    }
}

/// A list of distinct elements without the one at `x`'s position no
/// longer holds `x`.
pub proof fn lemma_removed_absent(l: Seq<usize>, x: usize)
    requires
        l.contains(x),
        crate::wm::model::distinct(l),
    ensures
        !l.remove(pos(l, x)).contains(x),
        forall|y: usize| y != x ==> (l.remove(pos(l, x)).contains(y) <==> l.contains(y)),
{
    lemma_pos(l, x);
    let i = pos(l, x);
    let n = l.remove(i);
    if n.contains(x) {
        let j = choose|j: int| 0 <= j < n.len() && n[j] == x;
        let jj = if j < i { j } else { j + 1 };
        assert(l[jj] == x);
    }
    assert forall|y: usize| y != x implies (n.contains(y) <==> l.contains(y)) by {
        if n.contains(y) {
            let j = choose|j: int| 0 <= j < n.len() && n[j] == y;
            let jj = if j < i { j } else { j + 1 };
            assert(l[jj] == y);
        }
        if l.contains(y) {
            let j = choose|j: int| 0 <= j < l.len() && l[j] == y;
            assert(j != i);
            let jj = if j < i { j } else { j - 1 };
            assert(n[jj] == y);
        }
    }
}

/// The position of `x` in `l`, whose elements are distinct.
pub fn index_of(l: &Vec<usize>, x: usize) -> (r: usize)
    requires
        l@.contains(x),
        crate::wm::model::distinct(l@),
    ensures
        r as int == pos(l@, x),
        (r as int) < l@.len(),
{
    proof {
        lemma_pos(l@, x);
    }
    let mut i: usize = 0;
    while i < l.len()
        invariant
            i <= pos(l@, x),
            0 <= pos(l@, x) < l@.len(),
            l@[pos(l@, x)] == x,
            crate::wm::model::distinct(l@),
        decreases l@.len() - i,
    {
        if l[i] == x {
            return i;
        }
        i += 1;
    }
    i
}

/// The tag whose settings the tag set `want` selects (see `tag_index`).
pub fn tag_of(want: u32, cur: usize) -> (r: usize)
    requires
        cur <= TAGS_LEN,
    ensures
        r == tag_index(want, cur, 0),
        r <= TAGS_LEN,
{
    if want == TAG_MASK {
        return 0;
    }
    let mut i: u32 = 0;
    while i < 9
        invariant
            i <= 9,
            want != TAG_MASK,
            cur <= TAGS_LEN,
            tag_index(want, cur, 0) == tag_index(want, cur, i as nat),
        decreases 9 - i,
    {
        if want & (1u32 << i) != 0 {
            return (i + 1) as usize;
        }
        i += 1;
    }
    cur
}

} // verus!
