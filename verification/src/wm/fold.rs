//! Folding one monitor's clients into another's.

use vstd::prelude::*;
use crate::wm::model::{Monitor, Wm};
use crate::wm::lists::{pos, lemma_pos};
use crate::wm::focus::managed;

verus! {

impl Wm {
    /// Moves the managed client `c` from its monitor to the head of monitor
    /// `m`'s lists, keeping its tags.
    #[verifier::rlimit(100)]
    #[verifier::spinoff_prover]
    pub(crate) fn move_client(&mut self, c: usize, m: usize)
        requires
            old(self).inv(),
            old(self).sane(),
            managed(*old(self), c),
            old(self).is_mon(m),
            old(self).clients@[c as int].mon != m,
        ensures
            final(self).inv(),
            final(self).sane(),
            final(self).ml@ == old(self).ml@,
            final(self).selmon == old(self).selmon,
            final(self).sw == old(self).sw && final(self).sh == old(self).sh && final(self).bh == old(self).bh,
            ({
                let om = old(self).clients@[c as int].mon;
                &&& final(self).cl(m) == seq![c] + old(self).cl(m)
                &&& final(self).sl(m) == seq![c] + old(self).sl(m)
                &&& final(self).cl(om) == old(self).cl(om).remove(pos(old(self).cl(om), c))
                &&& final(self).sl(om) == old(self).sl(om).remove(pos(old(self).sl(om), c))
                &&& forall|mm: usize| mm != m && mm != om && (mm as int) < old(self).mons@.len() ==>
                    #[trigger] final(self).mons@[mm as int] == old(self).mons@[mm as int]
                        && final(self).cl(mm) == old(self).cl(mm) && final(self).sl(mm) == old(self).sl(mm)
                &&& final(self).mons@[m as int] == (Monitor { clients: final(self).mons@[m as int].clients,
                    stack: final(self).mons@[m as int].stack, ..old(self).mons@[m as int] })
            }),
            final(self).mons@.len() == old(self).mons@.len(),
            final(self).clients@.len() == old(self).clients@.len(),
    {
        let ghost o = *self;
        proof {
            o.lemma_managed(c);
        }
        let om = self.clients[c].mon;
        self.unlist(c);
        let ghost o2 = *self;
        self.relist(c, m, true);
        proof {
            assert forall|mm: usize| mm != m && mm != om && (mm as int) < o.mons@.len() implies
                #[trigger] self.cl(mm) == o.cl(mm) && self.sl(mm) == o.sl(mm) && self.mons@[mm as int].sel == o.mons@[mm as int].sel by {
                assert(o2.mons@[mm as int] == o.mons@[mm as int]);
            }
            assert forall|mm: usize| mm != m && mm != om && (mm as int) < o.mons@.len() implies
                #[trigger] self.mons@[mm as int] == o.mons@[mm as int] by {
                assert(o2.mons@[mm as int] == o.mons@[mm as int]);
            }
            self.lemma_sendmon_consistent(o, c, om, m);
        }
    }

    /// Moves every client of monitor `m` to the head of monitor `to`'s
    /// lists, one after the other in `m`'s tiling order (so they end up in
    /// reverse order), keeping their tags; tells whether there was any.
    #[verifier::rlimit(100)]
    #[verifier::spinoff_prover]
    fn drain_monitor(&mut self, m: usize, to: usize) -> (moved: bool)
        requires
            old(self).inv(),
            old(self).sane(),
            old(self).is_mon(m),
            old(self).is_mon(to),
            m != to,
        ensures
            final(self).inv(),
            final(self).sane(),
            final(self).ml@ == old(self).ml@,
            final(self).selmon == old(self).selmon,
            final(self).cl(m).len() == 0,
            final(self).cl(to) == old(self).cl(m).reverse() + old(self).cl(to),
            final(self).sl(to) == old(self).cl(m).reverse() + old(self).sl(to),
            forall|mm: usize| mm != m && mm != to && (mm as int) < old(self).mons@.len() ==>
                #[trigger] final(self).mons@[mm as int] == old(self).mons@[mm as int]
                    && final(self).cl(mm) == old(self).cl(mm) && final(self).sl(mm) == old(self).sl(mm),
            final(self).mons@[to as int] == (Monitor { clients: final(self).mons@[to as int].clients,
                stack: final(self).mons@[to as int].stack, ..old(self).mons@[to as int] }),
            final(self).mons@.len() == old(self).mons@.len(),
            final(self).clients@.len() == old(self).clients@.len(),
            final(self).sw == old(self).sw && final(self).sh == old(self).sh && final(self).bh == old(self).bh,
            moved == (old(self).cl(m).len() > 0),
    {
        let ghost o = *self;
        proof {
            o.lemma_is_mon(m);
            o.lemma_is_mon(to);
        }
        let cs = self.client_list(m);
        let mut j: usize = 0;
        while j < cs.len()
            invariant
                self.inv(),
                self.sane(),
                o.is_mon(m) && o.is_mon(to) && m != to,
                self.ml@ == o.ml@,
                self.selmon == o.selmon,
                cs@ == o.cl(m),
                j <= cs@.len(),
                self.cl(m) == cs@.skip(j as int),
                self.cl(to) == cs@.take(j as int).reverse() + o.cl(to),
                self.sl(to) == cs@.take(j as int).reverse() + o.sl(to),
                forall|mm: usize| mm != m && mm != to && (mm as int) < o.mons@.len() ==>
                    #[trigger] self.mons@[mm as int] == o.mons@[mm as int]
                        && self.cl(mm) == o.cl(mm) && self.sl(mm) == o.sl(mm),
                self.mons@[to as int] == (Monitor { clients: self.mons@[to as int].clients,
                    stack: self.mons@[to as int].stack, ..o.mons@[to as int] }),
                self.mons@.len() == o.mons@.len(),
                self.clients@.len() == o.clients@.len(),
                self.sw == o.sw && self.sh == o.sh && self.bh == o.bh,
            decreases cs@.len() - j,
        {
            let c = cs[j];
            let ghost s0 = *self;
            proof {
                s0.lemma_is_mon(m);
                assert(s0.cl(m)[0] == c);
                assert(s0.cl(m).contains(c));
                let k = choose|k: int| 0 <= k < s0.ml@.len() && s0.ml@[k] == m;
                assert(s0.cl(s0.ml@[k]).contains(c));
                assert(s0.clients@[c as int].mon == m);
                lemma_pos(s0.cl(m), c);
                assert(pos(s0.cl(m), c) == 0);
            }
            self.move_client(c, to);
            proof {
                assert(self.cl(m) =~= cs@.skip(j + 1));
                assert(cs@.take(j + 1).reverse() =~= seq![c] + cs@.take(j as int).reverse());
                assert(self.cl(to) =~= cs@.take(j + 1).reverse() + o.cl(to));
                assert(self.sl(to) =~= cs@.take(j + 1).reverse() + o.sl(to));
            }
            j += 1;
        }
        proof {
            assert(cs@.take(cs@.len() as int) =~= cs@);
        }
        cs.len() > 0
    }
    /// Folds monitor `m` into monitor `to`: `m` hands `to` its clients
    /// (see `drain_monitor`), stops being selected in its favour and leaves
    /// the monitor list. Tells whether any client moved.
    #[verifier::rlimit(100)]
    #[verifier::spinoff_prover]
    pub(crate) fn fold_into(&mut self, m: usize, to: usize) -> (moved: bool)
        requires
            old(self).inv(),
            old(self).sane(),
            old(self).is_mon(m),
            old(self).is_mon(to),
            m != to,
        ensures
            final(self).inv(),
            final(self).sane(),
            final(self).ml@ == old(self).ml@.remove(pos(old(self).ml@, m)),
            final(self).cl(to) == old(self).cl(m).reverse() + old(self).cl(to),
            final(self).sl(to) == old(self).cl(m).reverse() + old(self).sl(to),
            forall|mm: usize| mm != m && mm != to && (mm as int) < old(self).mons@.len() ==>
                #[trigger] final(self).mons@[mm as int] == (Monitor { next: final(self).mons@[mm as int].next, ..old(self).mons@[mm as int] })
                    && final(self).cl(mm) == old(self).cl(mm) && final(self).sl(mm) == old(self).sl(mm),
            final(self).mons@[to as int] == (Monitor { next: final(self).mons@[to as int].next,
                clients: final(self).mons@[to as int].clients, stack: final(self).mons@[to as int].stack,
                ..old(self).mons@[to as int] }),
            final(self).selmon == (if old(self).selmon == Some(m) { Some(to) } else { old(self).selmon }),
            final(self).sw == old(self).sw && final(self).sh == old(self).sh && final(self).bh == old(self).bh,
            final(self).mons@.len() == old(self).mons@.len(),
            final(self).clients@.len() == old(self).clients@.len(),
            moved == (old(self).cl(m).len() > 0),
    {
        let ghost o = *self;
        let moved = self.drain_monitor(m, to);
        let ghost s1 = *self;
        if self.selmon == Some(m) {
            self.selmon = Some(to);
            proof {
                assert forall|j: int| 0 <= j < self.ml@.len() implies self.mon_ok(#[trigger] self.ml@[j]) by {
                    assert(s1.mon_ok(s1.ml@[j]));
                }
                assert forall|j: int| 0 <= j < self.ml@.len() implies self.mon_consistent(#[trigger] self.ml@[j]) by {
                    assert(s1.mon_consistent(s1.ml@[j]));
                }
            }
        }
        let ghost s2 = *self;
        self.cleanup_mon(m);
        proof {
            self.lemma_dropped_monitor(s2, m);
        }
        moved
    }

    /// After monitor `m` left the list of a consistent and sane `o`, with
    /// nothing else changed but monitor links, the rest stays consistent
    /// and sane.
    proof fn lemma_dropped_monitor(&self, o: Wm, m: usize)
        requires
            o.inv(),
            o.sane(),
            o.is_mon(m),
            self.wf(),
            self.ml@ == o.ml@.remove(pos(o.ml@, m)),
            self.cls == o.cls && self.sls == o.sls,
            self.sw == o.sw && self.sh == o.sh && self.bh == o.bh && self.blw == o.blw,
            self.clients == o.clients,
            self.mons@.len() == o.mons@.len(),
            forall|i: int| 0 <= i < o.mons@.len() && i != m ==> (#[trigger] self.mons@[i]) == (Monitor {
                next: self.mons@[i].next, ..o.mons@[i] }),
        ensures
            self.inv(),
            self.sane(),
    {
        let l = o.ml@;
        lemma_pos(l, m);
        let p = pos(l, m);
        assert forall|j: int| 0 <= j < self.ml@.len() implies self.mon_consistent(#[trigger] self.ml@[j]) by {
            let jj = if j < p { j } else { j + 1 };
            assert(self.ml@[j] == l[jj]);
            assert(o.mon_consistent(l[jj]));
            assert(l[jj] != m);
        }
        assert forall|j: int| 0 <= j < self.ml@.len() implies (#[trigger] self.mons@[self.ml@[j] as int]).sane() by {
            let jj = if j < p { j } else { j + 1 };
            assert(self.ml@[j] == l[jj]);
            assert(o.mons@[l[jj] as int].sane());
            assert(l[jj] != m);
        }
    }
}

} // verus!
