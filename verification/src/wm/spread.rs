//! Growing the monitor list to the screens and placing each monitor on
//! its screen.

use vstd::prelude::*;
use crate::wm::model::{Monitor, Wm, small, fresh_monitor, mon_settings_ok};
use crate::wm::screens::{Screen, MFACT_BITS, screen_ok, replaced, placed_on, spread_ok, spread_to};

verus! {

impl Wm {
    /// Adds fresh monitors at the end of the list until it has `nn`.
    #[verifier::rlimit(100)]
    #[verifier::spinoff_prover]
    pub(crate) fn grow(&mut self, nn: usize)
        requires
            old(self).inv(),
            old(self).sane(),
            old(self).ml@.len() <= nn,
        ensures
            final(self).inv(),
            final(self).sane(),
            final(self).ml@.len() == nn,
            final(self).ml@.take(old(self).ml@.len() as int) == old(self).ml@,
            forall|k: int| old(self).ml@.len() <= k < nn ==> fresh_monitor(Monitor { next: None,
                ..#[trigger] final(self).mons@[final(self).ml@[k] as int] })
                && final(self).mons@[final(self).ml@[k] as int].mfact == MFACT_BITS
                && final(self).cl(final(self).ml@[k]).len() == 0 && final(self).sl(final(self).ml@[k]).len() == 0,
            forall|k: int| 0 <= k < old(self).ml@.len() ==> (#[trigger] final(self).mons@[old(self).ml@[k] as int]) == (Monitor {
                next: final(self).mons@[old(self).ml@[k] as int].next, ..old(self).mons@[old(self).ml@[k] as int] })
                && final(self).cl(old(self).ml@[k]) == old(self).cl(old(self).ml@[k])
                && final(self).sl(old(self).ml@[k]) == old(self).sl(old(self).ml@[k]),
            final(self).selmon == old(self).selmon,
            final(self).clients@ == old(self).clients@,
            final(self).sw == old(self).sw && final(self).sh == old(self).sh && final(self).bh == old(self).bh,
    {
        let ghost o = *self;
        let mut n = self.mon_list().len();
        proof {
            assert(self.ml@.take(o.ml@.len() as int) =~= o.ml@);
        }
        while n < nn
            invariant
                self.inv(),
                self.sane(),
                o.ml@.len() <= n <= nn,
                self.ml@.len() == n,
                self.ml@.take(o.ml@.len() as int) == o.ml@,
                forall|k: int| o.ml@.len() <= k < n ==> fresh_monitor(Monitor { next: None,
                    ..#[trigger] self.mons@[self.ml@[k] as int] })
                    && self.mons@[self.ml@[k] as int].mfact == MFACT_BITS
                    && self.cl(self.ml@[k]).len() == 0 && self.sl(self.ml@[k]).len() == 0,
                forall|k: int| 0 <= k < o.ml@.len() ==> (#[trigger] self.mons@[o.ml@[k] as int]) == (Monitor {
                    next: self.mons@[o.ml@[k] as int].next, ..o.mons@[o.ml@[k] as int] })
                    && self.cl(o.ml@[k]) == o.cl(o.ml@[k]) && self.sl(o.ml@[k]) == o.sl(o.ml@[k]),
                self.selmon == o.selmon,
                self.clients@ == o.clients@,
                self.sw == o.sw && self.sh == o.sh && self.bh == o.bh,
            decreases nn - n,
        {
            let ghost s0 = *self;
            let mn = Monitor::new(MFACT_BITS);
            let m = self.alloc_monitor(mn);
            let ghost s1 = *self;
            proof {
                assert(s1.mons@[m as int] == mn);
                assert forall|k: int| 0 <= k < s0.ml@.len() implies s1.mons@[s0.ml@[k] as int] == s0.mons@[s0.ml@[k] as int] by {
                    assert(s0.mons@[s0.ml@[k] as int].alive);
                    if s0.ml@[k] == m {
                        assert(s0.is_mon(m));
                    }
                }
            }
            self.append_monitor(m);
            proof {
                let l = self.ml@;
                assert forall|k: int| 0 <= k < l.len() implies self.mon_consistent(#[trigger] l[k]) by {
                    if k < n {
                        assert(s0.mon_consistent(s0.ml@[k]));
                        assert(s0.ml@[k] != m) by { if s0.ml@[k] == m { assert(s0.is_mon(m)); } }
                    } else {
                        assert(l[k] == m);
                    }
                }
                assert forall|k: int| 0 <= k < l.len() implies (#[trigger] self.mons@[l[k] as int]).sane() by {
                    if k < n {
                        assert(s0.mons@[s0.ml@[k] as int].sane());
                        assert(s0.ml@[k] != m) by { if s0.ml@[k] == m { assert(s0.is_mon(m)); } }
                    }
                }
                assert(self.ml@.take(o.ml@.len() as int) =~= o.ml@) by {
                    assert(s0.ml@.take(o.ml@.len() as int) == o.ml@);
                }
                assert forall|k: int| o.ml@.len() <= k < n + 1 implies fresh_monitor(Monitor { next: None,
                    ..#[trigger] self.mons@[self.ml@[k] as int] })
                    && self.mons@[self.ml@[k] as int].mfact == MFACT_BITS
                    && self.cl(self.ml@[k]).len() == 0 && self.sl(self.ml@[k]).len() == 0 by {
                    if k < n {
                        assert(s0.ml@[k] != m) by { if s0.ml@[k] == m { assert(s0.is_mon(m)); } }
                        assert(s0.mons@[s0.ml@[k] as int].alive);
                    }
                }
                assert forall|k: int| 0 <= k < o.ml@.len() implies (#[trigger] self.mons@[o.ml@[k] as int]) == (Monitor {
                    next: self.mons@[o.ml@[k] as int].next, ..o.mons@[o.ml@[k] as int] })
                    && self.cl(o.ml@[k]) == o.cl(o.ml@[k]) && self.sl(o.ml@[k]) == o.sl(o.ml@[k]) by {
                    assert(s0.ml@[k] == o.ml@[k]);
                    assert(o.ml@[k] != m) by { if o.ml@[k] == m { assert(s0.ml@[k] == m); assert(s0.is_mon(m)); } }
                }
            }
            n += 1;
        }
    }

    /// Gives the monitors of the list, in order, the screens `u`: each that
    /// is new (at a position from `n_old` on) or whose area differs is
    /// numbered by its position and takes the screen (see `placed_on`).
    /// Tells whether any monitor did.
    #[verifier::rlimit(100)]
    #[verifier::spinoff_prover]
    pub(crate) fn place(&mut self, u: &Vec<Screen>, n_old: usize) -> (dirty: bool)
        requires
            old(self).inv(),
            old(self).sane(),
            old(self).ml@.len() == u@.len(),
            forall|i: int| 0 <= i < u@.len() ==> screen_ok(#[trigger] u@[i]),
        ensures
            final(self).inv(),
            final(self).sane(),
            *final(self) == (Wm { mons: final(self).mons, ..*old(self) }),
            final(self).mons@.len() == old(self).mons@.len(),
            forall|k: int| 0 <= k < u@.len() ==> (#[trigger] final(self).mons@[old(self).ml@[k] as int]) == if replaced(
                old(self).mons@[old(self).ml@[k] as int], k, n_old as int, u@[k]) {
                placed_on(old(self).mons@[old(self).ml@[k] as int], k, u@[k], old(self).bh as int) } else {
                old(self).mons@[old(self).ml@[k] as int] },
            dirty == exists|k: int| 0 <= k < u@.len() && replaced(#[trigger] old(self).mons@[old(self).ml@[k] as int],
                k, n_old as int, u@[k]),
    {
        let ghost o = *self;
        let ms = self.mon_list();
        let mut dirty = false;
        let mut i: usize = 0;
        while i < ms.len()
            invariant
                self.inv(),
                self.sane(),
                ms@ == o.ml@,
                o.ml@.len() == u@.len(),
                forall|j: int| 0 <= j < u@.len() ==> screen_ok(#[trigger] u@[j]),
                i <= ms@.len(),
                *self == (Wm { mons: self.mons, ..o }),
                self.mons@.len() == o.mons@.len(),
                forall|k: int| 0 <= k < i ==> (#[trigger] self.mons@[o.ml@[k] as int]) == if replaced(
                    o.mons@[o.ml@[k] as int], k, n_old as int, u@[k]) {
                    placed_on(o.mons@[o.ml@[k] as int], k, u@[k], o.bh as int) } else {
                    o.mons@[o.ml@[k] as int] },
                forall|k: int| i <= k < ms@.len() ==> (#[trigger] self.mons@[o.ml@[k] as int]) == o.mons@[o.ml@[k] as int],
                dirty == exists|k: int| 0 <= k < i && replaced(#[trigger] o.mons@[o.ml@[k] as int], k, n_old as int, u@[k]),
            decreases ms@.len() - i,
        {
            let m = ms[i];
            let s = u[i];
            let ghost s0 = *self;
            proof {
                s0.lemma_is_mon_at(i as int);
            }
            let mn = &self.mons[m];
            if i >= n_old || mn.mx != s.0 || mn.my != s.1 || mn.mw != s.2 || mn.mh != s.3 {
                dirty = true;
                self.mons[m].num = i as i32;
                self.mons[m].mx = s.0;
                self.mons[m].wx = s.0;
                self.mons[m].my = s.1;
                self.mons[m].wy = s.1;
                self.mons[m].mw = s.2;
                self.mons[m].ww = s.2;
                self.mons[m].mh = s.3;
                self.mons[m].wh = s.3;
                proof {
                    assert(small(self.bh as int));
                }
                self.update_bar_pos(m);
                proof {
                    self.lemma_mon_changed(s0, m);
                }
            }
            proof {
                assert forall|k: int| 0 <= k < i + 1 implies (#[trigger] self.mons@[o.ml@[k] as int]) == if replaced(
                    o.mons@[o.ml@[k] as int], k, n_old as int, u@[k]) {
                    placed_on(o.mons@[o.ml@[k] as int], k, u@[k], o.bh as int) } else {
                    o.mons@[o.ml@[k] as int] } by {
                    if k < i {
                        assert(o.ml@[k] != m);
                    }
                }
                assert forall|k: int| i + 1 <= k < ms@.len() implies (#[trigger] self.mons@[o.ml@[k] as int]) == o.mons@[o.ml@[k] as int] by {
                    assert(o.ml@[k] != m);
                }
            }
            i += 1;
        }
        dirty
    }

    /// A listed monitor, by position.
    pub proof fn lemma_is_mon_at(&self, k: int)
        requires
            self.wf(),
            self.sane(),
            0 <= k < self.ml@.len(),
        ensures
            self.is_mon(self.ml@[k]),
            (self.ml@[k] as int) < self.mons@.len(),
            self.mons@[self.ml@[k] as int].sane(),
            mon_settings_ok(self.mons@[self.ml@[k] as int]),
            forall|j: int| 0 <= j < self.ml@.len() && j != k ==> self.ml@[j] != self.ml@[k],
    {
        assert(self.mon_ok(self.ml@[k]));
    }

    /// Grows the monitor list to the screens `u` and gives each monitor its
    /// screen (see `spread_to`).
    #[verifier::rlimit(100)]
    #[verifier::spinoff_prover]
    pub(crate) fn spread(&mut self, u: &Vec<Screen>) -> (dirty: bool)
        requires
            old(self).inv(),
            old(self).sane(),
            old(self).ml@.len() <= u@.len(),
            forall|i: int| 0 <= i < u@.len() ==> screen_ok(#[trigger] u@[i]),
        ensures
            final(self).inv(),
            final(self).sane(),
            spread_to(*old(self), *final(self), u@, dirty),
            final(self).selmon == old(self).selmon,
            final(self).sw == old(self).sw && final(self).sh == old(self).sh && final(self).bh == old(self).bh,
    {
        let ghost o = *self;
        let n = self.mon_list().len();
        self.grow(u.len());
        let ghost g = *self;
        let dirty = self.place(u, n);
        proof {
            let nn = u@.len() as int;
            assert forall|k: int| 0 <= k < nn implies #[trigger] spread_ok(o, *self, k, u@[k]) by {
                let mg = g.mons@[g.ml@[k] as int];
                if k < n {
                    assert(g.ml@[k] == o.ml@[k]) by {
                        assert(n <= g.ml@.len());
                        assert(g.ml@.take(n as int)[k] == g.ml@[k]);
                    }
                    let b = Monitor { next: None, ..o.mons@[o.ml@[k] as int] };
                    assert(Monitor { next: None, ..mg } == b);
                    assert(replaced(mg, k, n as int, u@[k]) == replaced(b, k, n as int, u@[k]));
                    assert(self.ml@[k] == g.ml@[k]);
                    assert(Monitor { next: None, ..self.mons@[self.ml@[k] as int] }
                        == if replaced(b, k, n as int, u@[k]) { placed_on(b, k, u@[k], o.bh as int) } else { b });
                } else {
                    let b = Monitor { next: None, ..mg };
                    assert(fresh_monitor(b) && b.mfact == MFACT_BITS);
                    assert(self.ml@[k] == g.ml@[k]);
                    assert(replaced(b, k, n as int, u@[k]));
                    assert(Monitor { next: None, ..self.mons@[self.ml@[k] as int] } == placed_on(b, k, u@[k], o.bh as int));
                }
            }
            if u@.len() > n {
                assert(replaced(g.mons@[g.ml@[nn - 1] as int], nn - 1, n as int, u@[nn - 1]));
            }
            if exists|k: int| 0 <= k < n && replaced(#[trigger] o.mons@[o.ml@[k] as int], k, n as int, u@[k]) {
                let k = choose|k: int| 0 <= k < n && replaced(#[trigger] o.mons@[o.ml@[k] as int], k, n as int, u@[k]);
                assert(g.ml@[k] == o.ml@[k]) by {
                    assert(g.ml@.take(n as int)[k] == o.ml@[k]);
                }
                assert(replaced(g.mons@[g.ml@[k] as int], k, n as int, u@[k]));
            }
            if dirty {
                let k = choose|k: int| 0 <= k < nn && replaced(#[trigger] g.mons@[g.ml@[k] as int], k, n as int, u@[k]);
                if k < n {
                    assert(g.ml@[k] == o.ml@[k]) by {
                        assert(n <= g.ml@.len());
                        assert(g.ml@.take(n as int)[k] == g.ml@[k]);
                    }
                    assert(replaced(o.mons@[o.ml@[k] as int], k, n as int, u@[k]));
                }
            }
            assert forall|k: int| 0 <= k < n implies self.cl(#[trigger] o.ml@[k]) == o.cl(o.ml@[k]) && self.sl(o.ml@[k]) == o.sl(o.ml@[k]) by {
                assert(g.cl(o.ml@[k]) == o.cl(o.ml@[k]));
            }
        }
        dirty
    }

}

} // verus!
