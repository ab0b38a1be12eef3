//! Arranging monitors: showing and hiding clients, applying the layout,
//! and the stacking order.

use vstd::prelude::*;
use crate::wm::model::{Aspect, Monitor, Wm, mon_settings_ok};
use crate::wm::config::{LT_TILE, LT_MONOCLE, layout_symbol, arranges, symbol_of, has_arrange};
use crate::wm::geometry::aspect_ok;
use crate::wm::layout::{tiled, tiled_from, master_ok, tile_placed, monocle_ok, monocle_symbol, count_visible};
use crate::wm::focus::FocusChange;

verus! {

/// What arranging asks of the display, in this order: move the shown
/// clients to their place and the hidden ones off the screen, configure
/// the resized clients, apply the focus change, then for each arranged
/// monitor redraw its bar, raise the client in `raise` and stack the
/// clients in `below` under the bar, each under the one before.
pub struct Arranged {
    pub shown: Vec<usize>,
    pub hidden: Vec<usize>,
    pub resized: Vec<usize>,
    pub focus: FocusChange,
    pub mons: Vec<usize>,
    pub raise: Vec<Option<usize>>,
    pub below: Vec<Vec<usize>>,
}

impl Wm {
    /// Applies monitor `m`'s layout: its symbol is set and the tile or
    /// monocle layout places its tiled clients. Returns the tiled clients
    /// whose geometry changed.
    pub fn arrangemon<A: Fn(Aspect, i32, i32) -> (i32, i32), M: Fn(u32, i32) -> i32>(&mut self, m: usize,
        aspect: &A, mwf: &M) -> (resized: Vec<usize>)
        requires
            old(self).wf(),
            old(self).is_mon(m),
            old(self).sane(),
            old(self).clients@.len() <= i32::MAX,
            aspect_ok(aspect),
            master_ok(mwf),
        ensures
            final(self).wf(),
            old(self).consistent() ==> final(self).consistent(),
            final(self).mons@ == old(self).mons@.update(m as int, Monitor {
                ltsymbol: final(self).mons@[m as int].ltsymbol, ..old(self).mons@[m as int] }),
            *final(self) == (Wm { clients: final(self).clients, mons: final(self).mons, ..*old(self) }),
            ({
                let mn = old(self).mons@[m as int];
                let lt = mn.lt[mn.sellt as int];
                let t = tiled(*old(self), m);
                let n = count_visible(old(self).clients@, mn, old(self).cl(m), 0);
                &&& lt == LT_TILE ==> final(self).mons@[m as int].ltsymbol@ == layout_symbol(LT_TILE)
                    && (t.len() == 0 ==> final(self).clients@ == old(self).clients@)
                    && (t.len() > 0 ==> exists|mw: i32| mwf.ensures((mn.mfact, mn.ww), mw)
                        && tile_placed(aspect, *old(self), final(self).clients@, m, t, mw as int))
                &&& lt == LT_MONOCLE ==> final(self).mons@[m as int].ltsymbol@ ==
                        (if n > 0 { monocle_symbol(n) } else { layout_symbol(LT_MONOCLE) })
                    && forall|k: int| 0 <= k < t.len() ==> monocle_ok(aspect, *old(self), final(self).clients@, m, t, k)
                &&& (lt == LT_TILE || lt == LT_MONOCLE) ==> (final(self).clients@.len() == old(self).clients@.len()
                    && forall|q: int| 0 <= q < final(self).clients@.len() && !t.contains(q as usize)
                        ==> final(self).clients@[q] == old(self).clients@[q])
                &&& lt != LT_TILE && lt != LT_MONOCLE ==> final(self).mons@[m as int].ltsymbol@ == layout_symbol(lt)
                    && final(self).clients@ == old(self).clients@
                &&& forall|i: usize| resized@.contains(i) <==> t.contains(i)
                    && final(self).clients@[i as int] != old(self).clients@[i as int]
            }),
            final(self).sane(),
    {
        let ghost o = *self;
        proof {
            self.lemma_is_mon_sane(m);
        }
        let lt = self.mons[m].lt[self.mons[m].sellt];
        let mut resized: Vec<usize> = Vec::new();
        if lt == LT_MONOCLE {
            assert(self.clients@.len() <= u32::MAX);
            let (t, flags) = self.monocle(m, aspect);
            resized = changed_of(&t, &flags);
            return resized;
        }
        if lt == LT_TILE {
            let (t, flags) = self.tile(m, aspect, mwf);
            resized = changed_of(&t, &flags);
        }
        let ghost o2 = *self;
        self.mons[m].ltsymbol = symbol_of(lt);
        proof {
            assert forall|kk: int| 0 <= kk < o2.ml@.len() implies mon_settings_ok(#[trigger] self.mons@[o2.ml@[kk] as int]) by {
                assert(o2.mon_ok(o2.ml@[kk]));
            }
            self.lemma_mon_fields(o2);
            assert forall|k: int| 0 <= k < self.ml@.len() implies (#[trigger] self.mons@[self.ml@[k] as int]).sane() by {
                assert(o2.mons@[o2.ml@[k] as int].sane());
            }
            if lt != LT_TILE {
                assert(resized@.len() == 0);
                assert forall|i: usize| !(tiled(o, m).contains(i) && self.clients@[i as int] != o.clients@[i as int]) by {}
            }
        }
        resized
    }

    /// The stacking for monitor `m`: the selected client is raised when it
    /// floats or the layout does not arrange; when the layout arranges, the
    /// tiled clients in focus order go under the bar, each under the one
    /// before. Nothing without a selected client.
    pub fn restack_order(&self, m: usize) -> (r: (Option<usize>, Vec<usize>))
        requires
            self.inv(),
            self.is_mon(m),
        ensures
            ({
                let mn = self.mons@[m as int];
                let lt = mn.lt[mn.sellt as int];
                &&& mn.sel is None ==> r.0 is None && r.1@.len() == 0
                &&& mn.sel matches Some(s) ==> r.0 == (if self.clients@[s as int].isfloating || !arranges(lt) { Some(s) } else { None })
                    && r.1@ == (if arranges(lt) { tiled_from(self.clients@, mn, self.sl(m), 0) } else { Seq::empty() })
            }),
    {
        proof {
            self.lemma_is_mon(m);
        }
        let sel = match self.mons[m].sel {
            Some(s) => s,
            None => {
                return (None, Vec::new());
            },
        };
        proof {
            let k = choose|k: int| 0 <= k < self.ml@.len() && self.ml@[k] == m;
            assert(self.mon_ok(self.ml@[k]));
        }
        proof {
            let k = choose|k: int| 0 <= k < self.ml@.len() && self.ml@[k] == m;
            assert(self.mon_consistent(self.ml@[k]));
            let j = choose|j: int| 0 <= j < self.cl(m).len() && self.cl(m)[j] == sel;
        }
        let lt = self.mons[m].lt[self.mons[m].sellt];
        let arr = has_arrange(lt);
        let raise = if self.clients[sel].isfloating || !arr { Some(sel) } else { None };
        let mut below: Vec<usize> = Vec::new();
        if arr {
            let st = self.stack_list(m);
            let ghost l = st@;
            let ghost mn = self.mons@[m as int];
            let ghost cs = self.clients@;
            let mut i: usize = 0;
            while i < st.len()
                invariant
                    st@ == l,
                    l == self.sl(m),
                    cs == self.clients@,
                    mn == self.mons@[m as int],
                    (m as int) < self.mons@.len(),
                    mn.seltags < 2,
                    forall|q: int| 0 <= q < l.len() ==> (l[q] as int) < cs.len(),
                    i <= l.len(),
                    below@ + tiled_from(cs, mn, l, i as int) == tiled_from(cs, mn, l, 0),
                decreases l.len() - i,
            {
                let ci = st[i];
                if !self.clients[ci].isfloating && crate::wm::model::isvisible(&self.clients[ci], &self.mons[m]) {
                    below.push(ci);
                    assert(below@ + tiled_from(cs, mn, l, i + 1) =~= tiled_from(cs, mn, l, 0)) by {
                        assert(below@ =~= below@.drop_last().push(ci));
                    }
                }
                i += 1;
            }
            assert(below@ =~= tiled_from(cs, mn, l, 0));
        }
        (raise, below)
    }

    /// Arranges monitor `m`, or every monitor: shows and hides their
    /// clients, focuses the first visible client of the selected monitor's
    /// focus list, applies the layouts and computes the stacking.
    #[verifier::rlimit(100)]
    #[verifier::spinoff_prover]
    pub fn arrange<A: Fn(Aspect, i32, i32) -> (i32, i32), M: Fn(u32, i32) -> i32>(&mut self, m: Option<usize>,
        aspect: &A, mwf: &M) -> (r: Arranged)
        requires
            old(self).inv(),
            old(self).sane(),
            old(self).clients@.len() <= i32::MAX,
            aspect_ok(aspect),
            master_ok(mwf),
            m matches Some(mi) ==> old(self).is_mon(mi),
        ensures
            final(self).inv(),
            final(self).sane(),
            final(self).ml@ == old(self).ml@,
            final(self).cls@ == old(self).cls@,
            final(self).clients@.len() == old(self).clients@.len(),
            r.mons@ == (match m { Some(mi) => seq![mi], None => old(self).ml@ }),
            r.raise@.len() == r.mons@.len(),
            r.below@.len() == r.mons@.len(),
    {
        let ghost o = *self;
        let ms: Vec<usize> = match m {
            Some(mi) => {
                let mut v: Vec<usize> = Vec::new();
                v.push(mi);
                v
            },
            None => self.mon_list(),
        };
        assert(forall|k: int| 0 <= k < ms@.len() ==> o.is_mon(#[trigger] ms@[k])) by {
            assert forall|k: int| 0 <= k < ms@.len() implies o.is_mon(#[trigger] ms@[k]) by {
                if m is None {
                    assert(o.ml@[k] == ms@[k]);
                }
            }
        }
        let mut shown: Vec<usize> = Vec::new();
        let mut hidden: Vec<usize> = Vec::new();
        let mut resized: Vec<usize> = Vec::new();
        let mut i: usize = 0;
        while i < ms.len()
            invariant
                self.inv(),
                self.sane(),
                self.ml@ == o.ml@,
                self.cls@ == o.cls@,
                self.clients@.len() == o.clients@.len(),
                self.clients@.len() <= i32::MAX,
                forall|k: int| 0 <= k < ms@.len() ==> o.is_mon(#[trigger] ms@[k]),
                aspect_ok(aspect),
                i <= ms@.len(),
            decreases ms@.len() - i,
        {
            let mi = ms[i];
            assert(o.is_mon(ms@[i as int]));
            let (mut sh, mut hd) = self.showhide(mi, aspect);
            shown.append(&mut sh);
            hidden.append(&mut hd);
            i += 1;
        }
        let focus = self.focus(None);
        let mut raise: Vec<Option<usize>> = Vec::new();
        let mut below: Vec<Vec<usize>> = Vec::new();
        let mut j: usize = 0;
        while j < ms.len()
            invariant
                self.inv(),
                self.sane(),
                self.ml@ == o.ml@,
                self.cls@ == o.cls@,
                self.clients@.len() == o.clients@.len(),
                self.clients@.len() <= i32::MAX,
                forall|k: int| 0 <= k < ms@.len() ==> o.is_mon(#[trigger] ms@[k]),
                aspect_ok(aspect),
                master_ok(mwf),
                j <= ms@.len(),
                raise@.len() == j,
                below@.len() == j,
            decreases ms@.len() - j,
        {
            let mi = ms[j];
            assert(o.is_mon(ms@[j as int]));
            let mut rz = self.arrangemon(mi, aspect, mwf);
            resized.append(&mut rz);
            let (ra, be) = self.restack_order(mi);
            raise.push(ra);
            below.push(be);
            j += 1;
        }
        Arranged { shown, hidden, resized, focus, mons: ms, raise, below }
    }
}

/// The clients of `t` whose flag is set, in order.
pub fn changed_of(t: &Vec<usize>, flags: &Vec<bool>) -> (r: Vec<usize>)
    requires
        t@.len() == flags@.len(),
    ensures
        forall|i: usize| r@.contains(i) <==> exists|q: int| 0 <= q < t@.len() && t@[q] == i && flags@[q],
{
    let mut r: Vec<usize> = Vec::new();
    let mut q: usize = 0;
    while q < t.len()
        invariant
            t@.len() == flags@.len(),
            q <= t@.len(),
            forall|i: usize| r@.contains(i) <==> exists|p: int| 0 <= p < q && t@[p] == i && flags@[p],
        decreases t@.len() - q,
    {
        let ghost r0 = r@;
        if flags[q] {
            r.push(t[q]);
        }
        proof {
            assert forall|i: usize| r@.contains(i) <==> exists|p: int| 0 <= p < q + 1 && t@[p] == i && flags@[p] by {
                if flags@[q as int] {
                    assert(r@ == r0.push(t@[q as int]));
                    if r@.contains(i) {
                        let j = choose|j: int| 0 <= j < r@.len() && r@[j] == i;
                        if j < r0.len() {
                            assert(r0.contains(i));
                        } else {
                            assert(t@[q as int] == i);
                        }
                    }
                    if exists|p: int| 0 <= p < q + 1 && t@[p] == i && flags@[p] {
                        let p = choose|p: int| 0 <= p < q + 1 && t@[p] == i && flags@[p];
                        if p < q {
                            assert(r0.contains(i));
                            let j = choose|j: int| 0 <= j < r0.len() && r0[j] == i;
                            assert(r@[j] == i);
                        } else {
                            assert(r@[r0.len() as int] == i);
                        }
                    }
                } else {
                    assert(r@ == r0);
                    if exists|p: int| 0 <= p < q + 1 && t@[p] == i && flags@[p] {
                        let p = choose|p: int| 0 <= p < q + 1 && t@[p] == i && flags@[p];
                        assert(p < q);
                    }
                }
            }
        }
        q += 1;
    }
    r
}

} // verus!
