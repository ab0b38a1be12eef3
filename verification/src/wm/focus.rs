//! Focus: which client of which monitor is selected.

use vstd::prelude::*;

use crate::wm::model::{Client, Monitor, Wm, visible, isvisible, mon_settings_ok};
use crate::wm::lists::{first_visible, lemma_first_visible_in, pos, lemma_pos};

verus! {

/// What a change of focus asks of the display: the client that lost the
/// focus (its border and button grabs go back to normal) and the client
/// that got it (none: the root window takes the input focus), and whether
/// that client's urgency hint was cleared.
pub struct FocusChange {
    pub unfocused: Option<usize>,
    pub focused: Option<usize>,
    pub cleared_urgent: bool,
}

/// The client that focusing `c` on the selected monitor `mon` settles on:
/// `c` if it shows there, else the first client in focus order that does.
pub open spec fn focus_target(w: Wm, mon: usize, c: Option<usize>) -> Option<usize> {
    match c {
        Some(x) => if visible(w.clients@[x as int], w.mons@[mon as int]) {
            Some(x)
        } else {
            first_visible(w.clients@, w.mons@[mon as int], w.sl(mon), 0)
        },
        None => first_visible(w.clients@, w.mons@[mon as int], w.sl(mon), 0),
    }
}

/// `x` is a client in one of the live monitors' lists.
pub open spec fn managed(w: Wm, x: usize) -> bool {
    exists|k: int| 0 <= k < w.ml@.len() && w.cl(w.ml@[k]).contains(x)
}

impl Wm {
    /// A managed client is listed by its own monitor, which is live.
    pub proof fn lemma_managed(&self, x: usize)
        requires
            self.inv(),
            managed(*self, x),
        ensures
            (x as int) < self.clients@.len(),
            self.is_mon(self.clients@[x as int].mon),
            self.cl(self.clients@[x as int].mon).contains(x),
            self.sl(self.clients@[x as int].mon).contains(x),
            self.clients@[x as int].alive,
            (self.clients@[x as int].mon as int) < self.mons@.len(),
    {
        let k = choose|k: int| 0 <= k < self.ml@.len() && self.cl(self.ml@[k]).contains(x);
        let m = self.ml@[k];
        assert(self.mon_ok(m));
        assert(self.mon_consistent(m));
        let j = choose|j: int| 0 <= j < self.cl(m).len() && self.cl(m)[j] == x;
        assert(self.clients@[self.cl(m)[j] as int].mon == m);
        assert(self.is_mon(m));
    }

    /// A live monitor's index is in range and its settings are too.
    pub proof fn lemma_is_mon(&self, m: usize)
        requires
            self.wf(),
            self.is_mon(m),
        ensures
            (m as int) < self.mons@.len(),
            self.mon_ok(m),
            mon_settings_ok(self.mons@[m as int]),
    {
        let k = choose|k: int| 0 <= k < self.ml@.len() && self.ml@[k] == m;
        assert(self.mon_ok(self.ml@[k]));
    }

    /// Focuses client `c` (or, when it does not show on the selected
    /// monitor or is none, the first client in focus order that does): it
    /// becomes its monitor's selected client and the head of its focus
    /// list, its monitor becomes the selected one, and its urgency is
    /// cleared. Does nothing without a selected monitor.
    pub fn focus(&mut self, c: Option<usize>) -> (r: FocusChange)
        requires
            old(self).inv(),
            c matches Some(x) ==> managed(*old(self), x),
        ensures
            final(self).inv(),
            final(self).clients@.len() == old(self).clients@.len(),
            forall|i: int| 0 <= i < old(self).clients@.len() ==> (#[trigger] final(self).clients@[i]) == (Client {
                snext: final(self).clients@[i].snext, isurgent: final(self).clients@[i].isurgent, ..old(self).clients@[i] }),
            final(self).ml@ == old(self).ml@,
            final(self).cls@ == old(self).cls@,
            final(self).mons@.len() == old(self).mons@.len(),
            forall|i: int| 0 <= i < old(self).mons@.len() ==> (#[trigger] final(self).mons@[i]) == (Monitor {
                sel: final(self).mons@[i].sel, stack: final(self).mons@[i].stack, ..old(self).mons@[i] }),
            old(self).sane() ==> final(self).sane(),
            old(self).selmon is None ==> *final(self) == *old(self) && r.focused is None && r.unfocused is None,
            old(self).selmon matches Some(mon) ==> {
                let t = focus_target(*old(self), mon, c);
                &&& r.focused == t
                &&& r.unfocused == (if old(self).mons@[mon as int].sel != t { old(self).mons@[mon as int].sel } else { None })
                &&& final(self).selmon == (match t { Some(x) => Some(old(self).clients@[x as int].mon), None => Some(mon) })
                &&& final(self).mons@[final(self).selmon.unwrap() as int].sel == t
                &&& r.cleared_urgent == (match t { Some(x) => old(self).clients@[x as int].isurgent, None => false })
                &&& (t matches Some(x) ==> {
                    let m = old(self).clients@[x as int].mon;
                    let sl = old(self).sl(m);
                    &&& final(self).sl(m) == seq![x] + sl.remove(pos(sl, x))
                    &&& !final(self).clients@[x as int].isurgent
                    &&& final(self).clients@[x as int] == (Client { isurgent: false, snext: final(self).clients@[x as int].snext,
                        ..old(self).clients@[x as int] })
                })
            },
    {
        let ghost o = *self;
        let mon = match self.selmon {
            Some(m) => m,
            None => {
                return FocusChange { unfocused: None, focused: None, cleared_urgent: false };
            },
        };
        proof {
            self.lemma_is_mon(mon);
            assert(self.mon_consistent(mon)) by {
                let k = choose|k: int| 0 <= k < self.ml@.len() && self.ml@[k] == mon;
                assert(self.mon_consistent(self.ml@[k]));
            }
        }
        let mut target = c;
        let show = match c {
            Some(ci) => {
                proof {
                    self.lemma_managed(ci);
                }
                isvisible(&self.clients[ci], &self.mons[mon])
            },
            None => false,
        };
        if !show {
            target = self.first_visible_on(mon);
        }
        assert(target == focus_target(o, mon, c));
        proof {
            lemma_first_visible_in(o.clients@, o.mons@[mon as int], o.sl(mon), 0);
            if target is Some {
                let x = target.unwrap();
                if c != target {
                    assert(o.sl(mon).contains(x));
                    assert(o.cl(mon).contains(x));
                    assert(managed(o, x)) by {
                        let k = choose|k: int| 0 <= k < o.ml@.len() && o.ml@[k] == mon;
                    }
                }
            }
        }
        let prev = self.mons[mon].sel;
        let unfocused = if prev.is_some() && prev != target { prev } else { None };
        let mut cleared = false;
        match target {
            Some(ci) => {
                cleared = self.select_client(ci);
            },
            None => {
                self.mons[mon].sel = None;
                proof {
                    assert forall|kk: int| 0 <= kk < o.ml@.len() implies mon_settings_ok(#[trigger] self.mons@[o.ml@[kk] as int]) by {
                        assert(o.mon_ok(o.ml@[kk]));
                    }
                    self.lemma_mon_fields(o);
                    assert forall|k: int| 0 <= k < self.ml@.len() implies self.mon_consistent(#[trigger] self.ml@[k]) by {
                        assert(o.mon_consistent(o.ml@[k]));
                    }
                    if o.sane() {
                        assert forall|k: int| 0 <= k < self.ml@.len() implies (#[trigger] self.mons@[self.ml@[k] as int]).sane() by {
                            assert(o.mons@[o.ml@[k] as int].sane());
                        }
                    }
                }
            },
        }
        FocusChange { unfocused, focused: target, cleared_urgent: cleared }
    }

    /// Selects the managed client `ci`: its monitor becomes the selected
    /// one, its urgency is cleared (tells whether it was set), it moves to
    /// the head of its focus list and becomes its monitor's selected client.
    #[verifier::rlimit(100)]
    #[verifier::spinoff_prover]
    pub fn select_client(&mut self, ci: usize) -> (cleared: bool)
        requires
            old(self).inv(),
            managed(*old(self), ci),
        ensures
            final(self).inv(),
            final(self).ml@ == old(self).ml@,
            final(self).cls@ == old(self).cls@,
            final(self).clients@.len() == old(self).clients@.len(),
            forall|i: int| 0 <= i < old(self).clients@.len() ==> (#[trigger] final(self).clients@[i]) == (Client {
                snext: final(self).clients@[i].snext, isurgent: final(self).clients@[i].isurgent, ..old(self).clients@[i] }),
            final(self).mons@.len() == old(self).mons@.len(),
            forall|i: int| 0 <= i < old(self).mons@.len() ==> (#[trigger] final(self).mons@[i]) == (Monitor {
                sel: final(self).mons@[i].sel, stack: final(self).mons@[i].stack, ..old(self).mons@[i] }),
            old(self).sane() ==> final(self).sane(),
            cleared == old(self).clients@[ci as int].isurgent,
            ({
                let m = old(self).clients@[ci as int].mon;
                let sl = old(self).sl(m);
                &&& final(self).selmon == Some(m)
                &&& final(self).mons@[m as int].sel == Some(ci)
                &&& final(self).sl(m) == seq![ci] + sl.remove(pos(sl, ci))
                &&& final(self).clients@[ci as int] == (Client { isurgent: false, snext: final(self).clients@[ci as int].snext,
                    ..old(self).clients@[ci as int] })
            }),
    {
        let ghost o = *self;
        let mut cleared = false;
        proof {
            o.lemma_managed(ci);
        }
        let cmon = self.clients[ci].mon;
        self.selmon = Some(cmon);
        assert(self.inv()) by {
            assert forall|k: int| 0 <= k < self.ml@.len() implies self.mon_ok(#[trigger] self.ml@[k]) by {
                assert(o.mon_ok(o.ml@[k]));
            }
            assert forall|k: int| 0 <= k < self.ml@.len() implies self.mon_consistent(#[trigger] self.ml@[k]) by {
                assert(o.mon_consistent(o.ml@[k]));
            }
        }
        if self.clients[ci].isurgent {
            let ghost o1 = *self;
            self.clients[ci].isurgent = false;
            cleared = true;
            proof {
                assert(self.clients@ =~= o1.clients@.update(ci as int, Client { isurgent: false, ..o1.clients@[ci as int] }));
                self.lemma_urgent_kept(o1);
            }
        }
        let ghost o2 = *self;
        self.promote(ci, cmon);
        proof {
            assert forall|i: int| 0 <= i < o.clients@.len() implies (#[trigger] self.clients@[i]) == (Client {
                snext: self.clients@[i].snext, isurgent: self.clients@[i].isurgent, ..o.clients@[i] }) by {
                assert(o2.clients@[i] == (Client { isurgent: o2.clients@[i].isurgent, ..o.clients@[i] }));
                assert(self.clients@[i] == (Client { snext: self.clients@[i].snext, ..o2.clients@[i] }));
            }
            assert forall|i: int| 0 <= i < o.mons@.len() implies (#[trigger] self.mons@[i]) == (Monitor {
                sel: self.mons@[i].sel, stack: self.mons@[i].stack, ..o.mons@[i] }) by {
                assert(o2.mons@[i] == o.mons@[i]);
            }
            if o.sane() {
                assert forall|i: int| 0 <= i < o2.clients@.len() && o2.clients@[i].alive implies (#[trigger] o2.clients@[i]).sane() by {
                    assert(o.clients@[i].alive);
                    assert(o.clients@[i].sane());
                }
                assert forall|k: int| 0 <= k < o2.ml@.len() implies (#[trigger] o2.mons@[o2.ml@[k] as int]).sane() by {
                    assert(o.mons@[o.ml@[k] as int].sane());
                }
                assert(o2.sane());
            }
        }
        cleared
    }

    /// Moves the managed client `ci` of monitor `cmon` to the head of its
    /// focus list and makes it the monitor's selected client.
    #[verifier::rlimit(100)]
    #[verifier::spinoff_prover]
    fn promote(&mut self, ci: usize, cmon: usize)
        requires
            old(self).inv(),
            managed(*old(self), ci),
            old(self).clients@[ci as int].mon == cmon,
        ensures
            final(self).inv(),
            final(self).same_globals(*old(self)),
            final(self).cls@ == old(self).cls@,
            final(self).clients@.len() == old(self).clients@.len(),
            forall|i: int| 0 <= i < old(self).clients@.len() ==> (#[trigger] final(self).clients@[i]) == (Client {
                snext: final(self).clients@[i].snext, ..old(self).clients@[i] }),
            final(self).mons@.len() == old(self).mons@.len(),
            forall|i: int| 0 <= i < old(self).mons@.len() ==> (#[trigger] final(self).mons@[i]) == (Monitor {
                sel: final(self).mons@[i].sel, stack: final(self).mons@[i].stack, ..old(self).mons@[i] }),
            old(self).sane() ==> final(self).sane(),
            final(self).mons@[cmon as int].sel == Some(ci),
            final(self).sl(cmon) == seq![ci] + old(self).sl(cmon).remove(pos(old(self).sl(cmon), ci)),
    {
        let ghost o = *self;
        proof {
            o.lemma_managed(ci);
        }
        let ghost o2 = *self;
        self.detach_stack(ci);
        let ghost o3 = *self;
        proof {
            let sl = o2.sl(cmon);
            lemma_pos(sl, ci);
            assert(!sl.remove(pos(sl, ci)).contains(ci)) by {
                if sl.remove(pos(sl, ci)).contains(ci) {
                    let j = choose|j: int| 0 <= j < sl.remove(pos(sl, ci)).len() && sl.remove(pos(sl, ci))[j] == ci;
                    let jj = if j < pos(sl, ci) { j } else { j + 1 };
                    assert(sl[jj] == ci);
                }
            }
        }
        self.attach_stack(ci);
        let ghost o4 = *self;
        let sm = cmon;
        assert(sm == cmon);
        self.mons[sm].sel = Some(ci);
        proof {
            assert forall|kk: int| 0 <= kk < o4.ml@.len() implies mon_settings_ok(#[trigger] self.mons@[o4.ml@[kk] as int]) by {
                assert(o4.mon_ok(o4.ml@[kk]));
            }
            self.lemma_mon_fields(o4);
            let sl = o2.sl(cmon);
            assert(o3.sl(cmon) == sl.remove(pos(sl, ci)));
            assert(self.sls@ =~= o2.sls@.update(cmon as int, seq![ci] + sl.remove(pos(sl, ci))));
            assert forall|mm: int| 0 <= mm < o2.mons@.len() && mm != cmon implies (#[trigger] self.mons@[mm]).sel == o2.mons@[mm].sel by {
                assert(o3.mons@[mm] == o2.mons@[mm]);
                assert(o4.mons@[mm] == o3.mons@[mm]);
            }
            self.lemma_select_consistent(o2, ci, cmon);
            assert forall|i: int| 0 <= i < o.clients@.len() implies (#[trigger] self.clients@[i]) == (Client {
                snext: self.clients@[i].snext, ..o.clients@[i] }) by {
                assert(o3.clients@[i] == (Client { snext: o3.clients@[i].snext, ..o2.clients@[i] }));
                assert(o4.clients@[i] == (Client { snext: o4.clients@[i].snext, ..o3.clients@[i] }));
                assert(self.clients@[i] == o4.clients@[i]);
            }
            assert forall|i: int| 0 <= i < o.mons@.len() implies (#[trigger] self.mons@[i]) == (Monitor {
                sel: self.mons@[i].sel, stack: self.mons@[i].stack, ..o.mons@[i] }) by {
                assert(o3.mons@[i] == (Monitor { sel: o3.mons@[i].sel, stack: o3.mons@[i].stack, ..o2.mons@[i] }));
                assert(o4.mons@[i] == (Monitor { stack: o4.mons@[i].stack, ..o3.mons@[i] }));
            }
            if o.sane() {
                assert forall|i: int| 0 <= i < self.clients@.len() && self.clients@[i].alive implies (#[trigger] self.clients@[i]).sane() by {
                    assert(o.clients@[i].alive);
                    assert(o.clients@[i].sane());
                }
                assert forall|k: int| 0 <= k < self.ml@.len() implies (#[trigger] self.mons@[self.ml@[k] as int]).sane() by {
                    assert(o.mons@[o.ml@[k] as int].sane());
                }
            }
        }
    }

    /// After client `ci` of monitor `cmon` moved to the head of the focus
    /// list and was selected, the lists are consistent.
    proof fn lemma_select_consistent(&self, o2: Wm, ci: usize, cmon: usize)
        requires
            o2.inv(),
            o2.is_mon(cmon),
            o2.sl(cmon).contains(ci),
            o2.cl(cmon).contains(ci),
            self.wf(),
            self.ml@ == o2.ml@,
            self.cls@ == o2.cls@,
            self.sls@ == o2.sls@.update(cmon as int, seq![ci] + o2.sl(cmon).remove(pos(o2.sl(cmon), ci))),
            self.mons@.len() == o2.mons@.len(),
            forall|mm: int| 0 <= mm < o2.mons@.len() && mm != cmon ==> (#[trigger] self.mons@[mm]).sel == o2.mons@[mm].sel,
            self.mons@[cmon as int].sel == Some(ci),
        ensures
            self.consistent(),
    {
        let sl = o2.sl(cmon);
        lemma_pos(sl, ci);
        let i = pos(sl, ci);
        assert forall|k: int| 0 <= k < self.ml@.len() implies self.mon_consistent(#[trigger] self.ml@[k]) by {
            let mm = self.ml@[k];
            assert(o2.mon_consistent(o2.ml@[k]));
            o2.lemma_is_mon(mm);
            if mm == cmon {
                assert forall|x: usize| self.cl(mm).contains(x) <==> self.sl(mm).contains(x) by {
                    assert(self.sl(mm) == seq![ci] + sl.remove(i));
                    if sl.contains(x) {
                        let j = choose|j: int| 0 <= j < sl.len() && sl[j] == x;
                        if j != i {
                            let jj = if j < i { j } else { j - 1 };
                            assert(sl.remove(i)[jj] == x);
                            assert(self.sl(mm)[jj + 1] == x);
                        } else {
                            assert(self.sl(mm)[0] == x);
                        }
                    }
                    if self.sl(mm).contains(x) {
                        let j = choose|j: int| 0 <= j < self.sl(mm).len() && self.sl(mm)[j] == x;
                        if j > 0 {
                            let jj = j - 1;
                            let q = if jj < i { jj } else { jj + 1 };
                            assert(sl[q] == x);
                        }
                    }
                }
            } else {
                assert(self.sl(mm) == o2.sl(mm));
                assert(self.mons@[mm as int].sel == o2.mons@[mm as int].sel);
            }
        }
    }

    /// The first client in monitor `m`'s focus order that shows on it.
    pub fn first_visible_on(&self, m: usize) -> (r: Option<usize>)
        requires
            self.wf(),
            self.is_mon(m),
        ensures
            r == first_visible(self.clients@, self.mons@[m as int], self.sl(m), 0),
    {
        proof {
            self.lemma_is_mon(m);
        }
        let ghost l = self.sl(m);
        let ghost mn = self.mons@[m as int];
        let mut t = self.mons[m].stack;
        let ghost mut j: int = 0;
        loop
            invariant
                crate::wm::model::chained(self.clients@, self.mons@[m as int].stack, l, true),
                mn == self.mons@[m as int],
                mn.seltags < 2,
                (m as int) < self.mons@.len(),
                0 <= j <= l.len(),
                t == (if j < l.len() { Some(l[j]) } else { None }),
                first_visible(self.clients@, mn, l, 0) == first_visible(self.clients@, mn, l, j),
            ensures
                t == first_visible(self.clients@, mn, l, 0),
            decreases l.len() - j,
        {
            match t {
                None => {
                    break;
                },
                Some(ti) => {
                    assert(l[j] == ti);
                    if isvisible(&self.clients[ti], &self.mons[m]) {
                        break;
                    }
                    t = self.clients[ti].snext;
                    proof {
                        assert(crate::wm::model::link(self.clients@[l[j] as int], true) == crate::links::next_in(l, j));
                        j = j + 1;
                    }
                },
            }
        }
        t
    }

    /// Clearing a client's urgency keeps the invariant.
    proof fn lemma_urgent_kept(&self, o: Wm)
        requires
            o.inv(),
            *self == (Wm { clients: self.clients, ..o }),
            self.clients@.len() == o.clients@.len(),
            forall|i: int| 0 <= i < o.clients@.len() ==> (#[trigger] self.clients@[i]) == (Client { isurgent: self.clients@[i].isurgent, ..o.clients@[i] }),
        ensures
            self.inv(),
    {
        assert forall|i: int| 0 <= i < o.clients@.len() implies (#[trigger] self.clients@[i]).next == o.clients@[i].next
            && self.clients@[i].snext == o.clients@[i].snext
            && self.clients@[i].mon == o.clients@[i].mon
            && self.clients@[i].alive == o.clients@[i].alive by {
            assert(self.clients@[i] == (Client { isurgent: self.clients@[i].isurgent, ..o.clients@[i] }));
        }
        self.lemma_client_fields(o);
    }

}

} // verus!
