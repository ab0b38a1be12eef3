//! Folding the monitors past a count into the first one.

use vstd::prelude::*;
use crate::wm::model::{Monitor, Wm, distinct};
use crate::wm::lists::{pos, lemma_pos};
use crate::wm::screens::gathered;

verus! {

impl Wm {
    /// Folds the monitors past the first `nn` into the first one: each
    /// hands it its clients (see `gathered`), stops being selected in its
    /// favour, and leaves the list. Tells whether any client moved.
    #[verifier::rlimit(100)]
    #[verifier::spinoff_prover]
    pub(crate) fn collapse(&mut self, nn: usize) -> (dirty: bool)
        requires
            old(self).inv(),
            old(self).sane(),
            1 <= nn < old(self).ml@.len(),
        ensures
            final(self).inv(),
            final(self).sane(),
            final(self).ml@ == old(self).ml@.take(nn as int),
            final(self).cl(old(self).ml@[0]) == gathered(*old(self), nn as int, old(self).ml@.len() as int, false),
            final(self).sl(old(self).ml@[0]) == gathered(*old(self), nn as int, old(self).ml@.len() as int, true),
            forall|k: int| 1 <= k < nn ==> final(self).cl(#[trigger] old(self).ml@[k]) == old(self).cl(old(self).ml@[k])
                && final(self).sl(old(self).ml@[k]) == old(self).sl(old(self).ml@[k]),
            forall|k: int| 0 <= k < nn ==> (#[trigger] final(self).mons@[old(self).ml@[k] as int]) == (Monitor {
                next: final(self).mons@[old(self).ml@[k] as int].next,
                clients: final(self).mons@[old(self).ml@[k] as int].clients,
                stack: final(self).mons@[old(self).ml@[k] as int].stack, ..old(self).mons@[old(self).ml@[k] as int] }),
            final(self).selmon == (if exists|k: int| nn <= k < old(self).ml@.len() && old(self).selmon == Some(#[trigger] old(self).ml@[k]) {
                Some(old(self).ml@[0]) } else { old(self).selmon }),
            final(self).sw == old(self).sw && final(self).sh == old(self).sh && final(self).bh == old(self).bh,
            final(self).clients@.len() == old(self).clients@.len(),
            dirty == exists|k: int| nn <= k < old(self).ml@.len() && (#[trigger] old(self).cl(old(self).ml@[k])).len() > 0,
    {
        let ghost o = *self;
        let ms = self.mon_list();
        let head = ms[0];
        let mut dirty = false;
        let mut k: usize = nn;
        proof {
            assert(o.ml@ =~= o.ml@.take(nn as int) + o.ml@.skip(nn as int));
        }
        while k < ms.len()
            invariant
                self.inv(),
                self.sane(),
                ms@ == o.ml@,
                distinct(o.ml@),
                1 <= nn < ms@.len(),
                nn <= k <= ms@.len(),
                head == o.ml@[0],
                self.ml@ == o.ml@.take(nn as int) + o.ml@.skip(k as int),
                self.cl(head) == gathered(o, nn as int, k as int, false),
                self.sl(head) == gathered(o, nn as int, k as int, true),
                forall|kk: int| (1 <= kk < nn || k <= kk < ms@.len()) ==> self.cl(#[trigger] o.ml@[kk]) == o.cl(o.ml@[kk])
                    && self.sl(o.ml@[kk]) == o.sl(o.ml@[kk])
                    && self.mons@[o.ml@[kk] as int] == (Monitor { next: self.mons@[o.ml@[kk] as int].next, ..o.mons@[o.ml@[kk] as int] }),
                self.mons@[head as int] == (Monitor { next: self.mons@[head as int].next,
                    clients: self.mons@[head as int].clients, stack: self.mons@[head as int].stack, ..o.mons@[head as int] }),
                self.selmon == (if exists|kk: int| nn <= kk < k && o.selmon == Some(#[trigger] o.ml@[kk]) {
                    Some(head) } else { o.selmon }),
                self.sw == o.sw && self.sh == o.sh && self.bh == o.bh,
                self.mons@.len() == o.mons@.len(),
                self.clients@.len() == o.clients@.len(),
                dirty == exists|kk: int| nn <= kk < k && (#[trigger] o.cl(o.ml@[kk])).len() > 0,
            decreases ms@.len() - k,
        {
            let m = ms[k];
            let ghost s0 = *self;
            proof {
                assert(self.ml@[nn as int] == m);
                assert(self.ml@[0] == head);
                assert(o.ml@[k as int] != o.ml@[0]);
                lemma_pos(s0.ml@, m);
                assert(pos(s0.ml@, m) == nn);
            }
            let moved = self.fold_into(m, head);
            proof {
                assert(s0.cl(m) == o.cl(o.ml@[k as int]));
                lemma_collapse_lists(o, s0, *self, nn as int, k as int, head, m);
                lemma_collapse_frame(o, s0, *self, nn as int, k as int, head, m);
                lemma_collapse_selmon(o, s0, *self, nn as int, k as int, head, m);
                lemma_collapse_dirty(o, nn as int, k as int, moved);
            }
            dirty = dirty || moved;
            k += 1;
        }
        proof {
            assert(o.ml@.skip(ms@.len() as int) =~= Seq::<usize>::empty());
            assert(self.ml@ =~= o.ml@.take(nn as int));
        }
        dirty
    }

}


/// One step of `collapse`, for the lists: folding monitor `m`, at
/// position `k` of the original list `o.ml`, into the head carries the
/// list facts from `k` to `k + 1`.
proof fn lemma_collapse_lists(o: Wm, s0: Wm, s: Wm, nn: int, k: int, head: usize, m: usize)
    requires
        distinct(o.ml@),
        1 <= nn <= k < o.ml@.len(),
        head == o.ml@[0],
        m == o.ml@[k],
        s0.ml@ == o.ml@.take(nn) + o.ml@.skip(k),
        s0.cl(head) == gathered(o, nn, k, false),
        s0.sl(head) == gathered(o, nn, k, true),
        s0.cl(m) == o.cl(m),
        pos(s0.ml@, m) == nn,
        s.ml@ == s0.ml@.remove(pos(s0.ml@, m)),
        s.cl(head) == s0.cl(m).reverse() + s0.cl(head),
        s.sl(head) == s0.cl(m).reverse() + s0.sl(head),
    ensures
        s.ml@ == o.ml@.take(nn) + o.ml@.skip(k + 1),
        s.cl(head) == gathered(o, nn, k + 1, false),
        s.sl(head) == gathered(o, nn, k + 1, true),
{
    assert(s0.ml@[nn] == m);
    assert(s.ml@ =~= o.ml@.take(nn) + o.ml@.skip(k + 1));
    assert(gathered(o, nn, k + 1, false) == o.cl(o.ml@[k]).reverse() + gathered(o, nn, k, false));
    assert(gathered(o, nn, k + 1, true) == o.cl(o.ml@[k]).reverse() + gathered(o, nn, k, true));
}

/// One step of `collapse`, for the other monitors: they keep their lists
/// and settings.
proof fn lemma_collapse_frame(o: Wm, s0: Wm, s: Wm, nn: int, k: int, head: usize, m: usize)
    requires
        distinct(o.ml@),
        1 <= nn <= k < o.ml@.len(),
        head == o.ml@[0],
        m == o.ml@[k],
        s0.ml@ == o.ml@.take(nn) + o.ml@.skip(k),
        forall|kk: int| (1 <= kk < nn || k <= kk < o.ml@.len()) ==> s0.cl(#[trigger] o.ml@[kk]) == o.cl(o.ml@[kk])
            && s0.sl(o.ml@[kk]) == o.sl(o.ml@[kk])
            && s0.mons@[o.ml@[kk] as int] == (Monitor { next: s0.mons@[o.ml@[kk] as int].next, ..o.mons@[o.ml@[kk] as int] }),
        s0.wf(),
        forall|mm: usize| mm != m && mm != head && (mm as int) < s0.mons@.len() ==>
            #[trigger] s.mons@[mm as int] == (Monitor { next: s.mons@[mm as int].next, ..s0.mons@[mm as int] })
                && s.cl(mm) == s0.cl(mm) && s.sl(mm) == s0.sl(mm),
    ensures
        forall|kk: int| (1 <= kk < nn || k + 1 <= kk < o.ml@.len()) ==> s.cl(#[trigger] o.ml@[kk]) == o.cl(o.ml@[kk])
            && s.sl(o.ml@[kk]) == o.sl(o.ml@[kk])
            && s.mons@[o.ml@[kk] as int] == (Monitor { next: s.mons@[o.ml@[kk] as int].next, ..o.mons@[o.ml@[kk] as int] }),
{
    assert forall|kk: int| (1 <= kk < nn || k + 1 <= kk < o.ml@.len()) implies s.cl(#[trigger] o.ml@[kk]) == o.cl(o.ml@[kk])
        && s.sl(o.ml@[kk]) == o.sl(o.ml@[kk])
        && s.mons@[o.ml@[kk] as int] == (Monitor { next: s.mons@[o.ml@[kk] as int].next, ..o.mons@[o.ml@[kk] as int] }) by {
        assert(o.ml@[kk] != m);
        assert(o.ml@[kk] != head);
        let j = if kk < nn { kk } else { kk - k + nn };
        assert(s0.ml@[j] == o.ml@[kk]);
        assert((s0.ml@[j] as int) < s0.mons@.len());
        assert(s0.mons@[o.ml@[kk] as int] == (Monitor { next: s0.mons@[o.ml@[kk] as int].next, ..o.mons@[o.ml@[kk] as int] }));
        assert(s0.cl(o.ml@[kk]) == o.cl(o.ml@[kk]));
        assert(s.cl(o.ml@[kk]) == s0.cl(o.ml@[kk]));
        assert(s.mons@[o.ml@[kk] as int] == (Monitor { next: s.mons@[o.ml@[kk] as int].next, ..s0.mons@[o.ml@[kk] as int] }));
    }
}

/// One step of `collapse`, for the selection: it moves to the head when
/// the folded monitor was selected.
proof fn lemma_collapse_selmon(o: Wm, s0: Wm, s: Wm, nn: int, k: int, head: usize, m: usize)
    requires
        distinct(o.ml@),
        1 <= nn <= k < o.ml@.len(),
        head == o.ml@[0],
        m == o.ml@[k],
        s0.selmon == (if exists|kk: int| nn <= kk < k && o.selmon == Some(#[trigger] o.ml@[kk]) {
            Some(head) } else { o.selmon }),
        s.selmon == (if s0.selmon == Some(m) { Some(head) } else { s0.selmon }),
    ensures
        s.selmon == (if exists|kk: int| nn <= kk < k + 1 && o.selmon == Some(#[trigger] o.ml@[kk]) {
            Some(head) } else { o.selmon }),
{
    if exists|kk: int| nn <= kk < k + 1 && o.selmon == Some(#[trigger] o.ml@[kk]) {
        let kk = choose|kk: int| nn <= kk < k + 1 && o.selmon == Some(#[trigger] o.ml@[kk]);
        if kk < k {
            assert(s0.selmon == Some(head));
        } else {
            if !(exists|k3: int| nn <= k3 < k && o.selmon == Some(#[trigger] o.ml@[k3])) {
                assert(s0.selmon == Some(m));
            }
        }
    } else {
        if exists|k3: int| nn <= k3 < k && o.selmon == Some(#[trigger] o.ml@[k3]) {
            let k3 = choose|k3: int| nn <= k3 < k && o.selmon == Some(#[trigger] o.ml@[k3]);
            assert(nn <= k3 < k + 1);
        }
        assert(s0.selmon == o.selmon);
        assert(o.selmon != Some(m)) by {
            if o.selmon == Some(m) {
                assert(o.selmon == Some(o.ml@[k]));
            }
        }
    }
}

/// One step of `collapse`, for whether clients moved.
proof fn lemma_collapse_dirty(o: Wm, nn: int, k: int, moved: bool)
    requires
        nn <= k < o.ml@.len(),
        moved == (o.cl(o.ml@[k]).len() > 0),
    ensures
        (exists|kk: int| nn <= kk < k + 1 && (#[trigger] o.cl(o.ml@[kk])).len() > 0)
            == ((exists|kk: int| nn <= kk < k && (#[trigger] o.cl(o.ml@[kk])).len() > 0) || moved),
{
    if exists|kk: int| nn <= kk < k + 1 && (#[trigger] o.cl(o.ml@[kk])).len() > 0 {
        let kk = choose|kk: int| nn <= kk < k + 1 && (#[trigger] o.cl(o.ml@[kk])).len() > 0;
        if kk == k {
            assert(moved);
        }
    }
    if exists|kk: int| nn <= kk < k && (#[trigger] o.cl(o.ml@[kk])).len() > 0 {
        let kk = choose|kk: int| nn <= kk < k && (#[trigger] o.cl(o.ml@[kk])).len() > 0;
        assert(nn <= kk < k + 1);
    }
}

} // verus!
