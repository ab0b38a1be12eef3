//! The monitors follow the screens the display reports.

use vstd::prelude::*;
use crate::wm::model::{Monitor, Wm, screen, fresh_monitor};
use crate::wm::lists::in_window_area;
use crate::wm::geometry::bar_placed;


verus! {

/// The master factor new monitors start with: 0.55, as the bit pattern
/// of an `f32`.
pub const MFACT_BITS: u32 = 0x3f0ccccd;

/// A screen's position and size.
pub type Screen = (i32, i32, i32, i32);

/// The screens of `s`, each once, in the order of their first occurrence.
pub open spec fn uniq(s: Seq<Screen>) -> Seq<Screen>
    decreases s.len(),
{
    if s.len() == 0 {
        Seq::empty()
    } else {
        let u = uniq(s.drop_last());
        if u.contains(s.last()) { u } else { u.push(s.last()) }
    }
}

/// A screen within the `screen` range, of a size that is not negative.
pub open spec fn screen_ok(s: Screen) -> bool {
    screen(s.0 as int) && screen(s.1 as int) && 0 <= s.2 && screen(s.2 as int) && 0 <= s.3 && screen(s.3 as int)
}


/// What the first monitor of `o`'s list holds in its tiling list (or, with
/// `stack`, its focus list) once the monitors at positions `nn` up to, not
/// including, `k` handed it their clients, each monitor's in reverse
/// tiling order, in front of what it had.
pub open spec fn gathered(o: Wm, nn: int, k: int, stack: bool) -> Seq<usize>
    decreases k - nn,
{
    if k <= nn {
        if stack { o.sl(o.ml@[0]) } else { o.cl(o.ml@[0]) }
    } else {
        o.cl(o.ml@[k - 1]).reverse() + gathered(o, nn, k - 1, stack)
    }
}

/// Monitor `mn` numbered `num`, given screen `s` as its area and window
/// area, with its bar placed.
pub open spec fn placed_on(mn: Monitor, num: int, s: Screen, bh: int) -> Monitor {
    bar_placed(Monitor { num: num as i32, mx: s.0, my: s.1, mw: s.2, mh: s.3,
        wx: s.0, wy: s.1, ww: s.2, wh: s.3, ..mn }, bh)
}

/// Whether monitor `mn`, at position `k` of a list that had `n` monitors
/// before, is given screen `s` anew: it is new, or its area differs.
pub open spec fn replaced(mn: Monitor, k: int, n: int, s: Screen) -> bool {
    k >= n || mn.mx != s.0 || mn.my != s.1 || mn.mw != s.2 || mn.mh != s.3
}

/// Monitor `mn` sized to the whole screen, its bar placed.
pub open spec fn screen_sized(mn: Monitor, sw: int, sh: int, bh: int) -> Monitor {
    bar_placed(Monitor { mw: sw as i32, ww: sw as i32, mh: sh as i32, wh: sh as i32, ..mn }, bh)
}

/// The monitor that pointer position (`x`, `y`) selects in `w`: the first
/// one whose window area holds it, else the first monitor.
pub open spec fn pointed(w: Wm, x: int, y: int, r: Option<usize>) -> bool {
    ||| (r matches Some(m) && exists|k: int| 0 <= k < w.ml@.len() && w.ml@[k] == m
            && in_window_area(w.mons@[m as int], x, y)
            && forall|k2: int| 0 <= k2 < k ==> !in_window_area(w.mons@[w.ml@[k2] as int], x, y))
    ||| (r == Some(w.ml@[0]) && forall|k: int| 0 <= k < w.ml@.len()
            ==> !in_window_area(w.mons@[w.ml@[k] as int], x, y))
}


/// The monitor at position `k` of `f`'s list, whose list grew from `o`'s,
/// took screen `s` as `place` gives it: from `b`, `o`'s monitor there, or a
/// fresh one past `o`'s list.
pub open spec fn spread_ok(o: Wm, f: Wm, k: int, s: Screen) -> bool {
    let n = o.ml@.len() as int;
    let got = Monitor { next: None, ..f.mons@[f.ml@[k] as int] };
    exists|b: Monitor| #![trigger replaced(b, k, n, s)] {
        &&& (k < n ==> b == Monitor { next: None, ..o.mons@[o.ml@[k] as int] })
        &&& (k >= n ==> fresh_monitor(b) && b.mfact == MFACT_BITS)
        &&& got == if replaced(b, k, n, s) { placed_on(b, k, s, o.bh as int) } else { b }
    }
}

/// `f` is `o` with its monitor list grown to the screens `u`, each monitor
/// given its screen (see `spread_ok`); `dirty` tells whether any monitor
/// was new or changed its area. Clients and their lists stay; new
/// monitors have none.
pub open spec fn spread_to(o: Wm, f: Wm, u: Seq<Screen>, dirty: bool) -> bool {
    let n = o.ml@.len() as int;
    &&& f.ml@.len() == u.len()
    &&& f.ml@.take(n) == o.ml@
    &&& forall|k: int| 0 <= k < u.len() ==> #[trigger] spread_ok(o, f, k, u[k])
    &&& dirty == (u.len() > n || exists|k: int| 0 <= k < n && replaced(#[trigger] o.mons@[o.ml@[k] as int], k, n, u[k]))
    &&& f.clients@ == o.clients@
    &&& forall|k: int| 0 <= k < n ==> f.cl(#[trigger] o.ml@[k]) == o.cl(o.ml@[k]) && f.sl(o.ml@[k]) == o.sl(o.ml@[k])
    &&& forall|k: int| n <= k < u.len() ==> f.cl(#[trigger] f.ml@[k]).len() == 0 && f.sl(f.ml@[k]).len() == 0
}

/// `f` is `o` with one monitor sized to the whole screen: `o`'s first, or
/// a fresh one when `o` had none; `dirty` tells whether its size changed.
pub open spec fn single_ok(o: Wm, f: Wm, dirty: bool) -> bool {
    let hd = f.ml@[0];
    let b = single_base(o, f);
    &&& f.ml@.len() == (if o.ml@.len() == 0 { 1 } else { o.ml@.len() })
    &&& o.ml@.len() > 0 ==> f.ml@ == o.ml@
    &&& (o.ml@.len() == 0 ==> fresh_monitor(b) && b.mfact == MFACT_BITS)
    &&& dirty == (b.mw != o.sw || b.mh != o.sh)
    &&& f.mons@[hd as int] == if dirty { screen_sized(b, o.sw as int, o.sh as int, o.bh as int) } else { b }
    &&& forall|k: int| 1 <= k < f.ml@.len() ==> f.mons@[#[trigger] f.ml@[k] as int] == o.mons@[o.ml@[k] as int]
    &&& f.clients@ == o.clients@
    &&& forall|k: int| 0 <= k < o.ml@.len() ==> f.cl(#[trigger] o.ml@[k]) == o.cl(o.ml@[k]) && f.sl(o.ml@[k]) == o.sl(o.ml@[k])
    &&& o.ml@.len() == 0 ==> f.cl(hd).len() == 0 && f.sl(hd).len() == 0
}

/// The monitor that `single_ok` sizes: `o`'s first, or else the new one
/// of `f` as it was before sizing.
pub open spec fn single_base(o: Wm, f: Wm) -> Monitor {
    if o.ml@.len() > 0 {
        o.mons@[o.ml@[0] as int]
    } else {
        Monitor { mw: 0, ww: 0, mh: 0, wh: 0, wy: 0, by: 0, next: None, ..f.mons@[f.ml@[0] as int] }
    }
}

/// `f` is `o` with the monitors past the first `nn` folded into the first
/// (see `collapse`); `dirty` tells whether any client moved.
pub open spec fn folded_to(o: Wm, f: Wm, nn: int, dirty: bool) -> bool {
    &&& f.ml@ == o.ml@.take(nn)
    &&& f.cl(o.ml@[0]) == gathered(o, nn, o.ml@.len() as int, false)
    &&& f.sl(o.ml@[0]) == gathered(o, nn, o.ml@.len() as int, true)
    &&& forall|k: int| 1 <= k < nn ==> f.cl(#[trigger] o.ml@[k]) == o.cl(o.ml@[k]) && f.sl(o.ml@[k]) == o.sl(o.ml@[k])
    &&& forall|k: int| 0 <= k < nn ==> (#[trigger] f.mons@[o.ml@[k] as int]) == (Monitor {
            next: f.mons@[o.ml@[k] as int].next, clients: f.mons@[o.ml@[k] as int].clients,
            stack: f.mons@[o.ml@[k] as int].stack, ..o.mons@[o.ml@[k] as int] })
    &&& f.clients@.len() == o.clients@.len()
    &&& dirty == exists|k: int| nn <= k < o.ml@.len() && (#[trigger] o.cl(o.ml@[k])).len() > 0
}


/// A non-empty list has distinct screens.
pub proof fn lemma_uniq_nonempty(s: Seq<Screen>)
    requires
        s.len() > 0,
    ensures
        uniq(s).len() > 0,
    decreases s.len(),
{
    if s.len() > 1 {
        lemma_uniq_nonempty(s.drop_last());
    }
}


/// Changing only the selected monitor keeps `spread_to`.
proof fn lemma_spread_selmon(o: Wm, f0: Wm, f1: Wm, u: Seq<Screen>, d: bool)
    requires
        spread_to(o, f0, u, d),
        f1 == (Wm { selmon: f1.selmon, ..f0 }),
    ensures
        spread_to(o, f1, u, d),
{
    assert forall|k: int| 0 <= k < u.len() implies #[trigger] spread_ok(o, f1, k, u[k]) by {
        assert(spread_ok(o, f0, k, u[k]));
    }
}

/// Changing only the selected monitor keeps `folded_to`.
proof fn lemma_fold_selmon(o: Wm, f0: Wm, f1: Wm, nn: int, d: bool)
    requires
        folded_to(o, f0, nn, d),
        f1 == (Wm { selmon: f1.selmon, ..f0 }),
    ensures
        folded_to(o, f1, nn, d),
{
}

/// Changing only the selected monitor keeps `single_ok`.
proof fn lemma_single_selmon(o: Wm, f0: Wm, f1: Wm, d: bool)
    requires
        single_ok(o, f0, d),
        f1 == (Wm { selmon: f1.selmon, ..f0 }),
    ensures
        single_ok(o, f1, d),
{
}

/// The screens of `s` without repetitions, in order.
pub fn unique_screens(s: &Vec<Screen>) -> (u: Vec<Screen>)
    ensures
        u@ == uniq(s@),
        u@.len() <= s@.len(),
        forall|i: int| 0 <= i < u@.len() ==> s@.contains(#[trigger] u@[i]),
{
    let mut u: Vec<Screen> = Vec::new();
    let mut i: usize = 0;
    while i < s.len()
        invariant
            i <= s@.len(),
            u@ == uniq(s@.take(i as int)),
            u@.len() <= i,
            forall|k: int| 0 <= k < u@.len() ==> s@.take(i as int).contains(#[trigger] u@[k]),
        decreases s@.len() - i,
    {
        let x = s[i];
        let mut found = false;
        let mut j: usize = 0;
        while j < u.len()
            invariant
                j <= u@.len(),
                found == exists|k: int| 0 <= k < j && u@[k] == x,
            decreases u@.len() - j,
        {
            let y = u[j];
            if y.0 == x.0 && y.1 == x.1 && y.2 == x.2 && y.3 == x.3 {
                found = true;
            }
            j += 1;
        }
        assert(s@.take(i + 1).drop_last() =~= s@.take(i as int));
        assert(s@.take(i + 1).last() == x);
        if !found {
            u.push(x);
        }
        proof {
            assert forall|k: int| 0 <= k < u@.len() implies s@.take(i + 1).contains(#[trigger] u@[k]) by {
                if k < u@.len() - 1 || found {
                    assert(s@.take(i as int).contains(u@[k]));
                    let q = choose|q: int| 0 <= q < i && s@.take(i as int)[q] == u@[k];
                    assert(s@.take(i + 1)[q] == u@[k]);
                } else {
                    assert(s@.take(i + 1)[i as int] == u@[k]);
                }
            }
        }
        i += 1;
    }
    assert(s@.take(s@.len() as int) =~= s@);
    u
}


impl Wm {
    /// Sizes the first monitor (made fresh when there is none) to the whole
    /// screen (see `single_ok`).
    #[verifier::rlimit(100)]
    #[verifier::spinoff_prover]
    fn single(&mut self) -> (dirty: bool)
        requires
            old(self).inv(),
            old(self).sane(),
        ensures
            final(self).inv(),
            final(self).sane(),
            single_ok(*old(self), *final(self), dirty),
            final(self).selmon == old(self).selmon,
            final(self).sw == old(self).sw && final(self).sh == old(self).sh && final(self).bh == old(self).bh,
    {
        let ghost o = *self;
        if self.mons_head.is_none() {
            proof {
                if o.ml@.len() > 0 {
                    assert(o.mons_head == Some(o.ml@[0]));
                }
            }
            self.grow(1);
        }
        let ghost g = *self;
        proof {
            assert(g.ml@.len() > 0);
            if o.ml@.len() > 0 {
                assert(o.mons_head == Some(o.ml@[0]));
                assert(g == o);
            }
            g.lemma_is_mon_at(0);
        }
        let hd = self.mons_head.unwrap();
        assert(hd == g.ml@[0]);
        if self.mons[hd].mw != self.sw || self.mons[hd].mh != self.sh {
            let sw = self.sw;
            let sh = self.sh;
            self.mons[hd].mw = sw;
            self.mons[hd].ww = sw;
            self.mons[hd].mh = sh;
            self.mons[hd].wh = sh;
            self.update_bar_pos(hd);
            proof {
                self.lemma_mon_changed(g, hd);
                let b = if o.ml@.len() > 0 { o.mons@[hd as int] } else { Monitor { next: None, ..g.mons@[hd as int] } };
                assert(single_base(o, *self) == b);
                if o.ml@.len() == 0 {
                    assert(g.mons@[g.ml@[0] as int].next == None::<usize>);
                }
                assert(g.mons@[hd as int] == b);
                assert(self.mons@[hd as int] == screen_sized(b, o.sw as int, o.sh as int, o.bh as int));
                assert(o.ml@.len() > 0 ==> b == o.mons@[self.ml@[0] as int]);
                assert(o.ml@.len() == 0 ==> fresh_monitor(b) && b.mfact == MFACT_BITS);
                assert(true == (b.mw != o.sw || b.mh != o.sh));
                assert(self.ml@[0] == hd);
            }
            proof {
                assert forall|k: int| 1 <= k < self.ml@.len() implies self.mons@[#[trigger] self.ml@[k] as int] == o.mons@[o.ml@[k] as int] by {
                    g.lemma_is_mon_at(0);
                }
            }
            true
        } else {
            proof {
                let b = if o.ml@.len() > 0 { o.mons@[hd as int] } else { Monitor { next: None, ..g.mons@[hd as int] } };
                assert(single_base(o, *self) == b);
                if o.ml@.len() == 0 {
                    assert(g.mons@[g.ml@[0] as int].next == None::<usize>);
                }
                assert(g.mons@[hd as int] == b);
                assert(screen_sized(b, o.sw as int, o.sh as int, o.bh as int) == screen_sized(b, o.sw as int, o.sh as int, o.bh as int));
                assert(o.ml@.len() > 0 ==> b == o.mons@[self.ml@[0] as int]);
                assert(o.ml@.len() == 0 ==> fresh_monitor(b) && b.mfact == MFACT_BITS);
                assert(false == (b.mw != o.sw || b.mh != o.sh));
                assert(self.mons@[hd as int] == b);
            }
            false
        }
    }

    /// Selects the monitor under the pointer, if its position is known and
    /// some window area holds it, else the first monitor.
    #[verifier::rlimit(100)]
    #[verifier::spinoff_prover]
    fn reselect(&mut self, pointer: Option<(i32, i32)>)
        requires
            old(self).inv(),
            old(self).sane(),
            old(self).ml@.len() > 0,
        ensures
            final(self).inv(),
            final(self).sane(),
            *final(self) == (Wm { selmon: final(self).selmon, ..*old(self) }),
            match pointer {
                Some(p) => pointed(*final(self), p.0 as int, p.1 as int, final(self).selmon),
                None => final(self).selmon == Some(final(self).ml@[0]),
            },
    {
        let ghost f0 = *self;
        proof {
            f0.lemma_is_mon_at(0);
            assert(f0.mons_head == Some(f0.ml@[0]));
        }
        self.selmon = self.mons_head;
        proof {
            assert forall|j: int| 0 <= j < self.ml@.len() implies self.mon_ok(#[trigger] self.ml@[j]) by {
                assert(f0.mon_ok(f0.ml@[j]));
            }
            assert forall|j: int| 0 <= j < self.ml@.len() implies self.mon_consistent(#[trigger] self.ml@[j]) by {
                assert(f0.mon_consistent(f0.ml@[j]));
            }
            assert forall|j: int| 0 <= j < self.ml@.len() implies (#[trigger] self.mons@[self.ml@[j] as int]).sane() by {
                assert(f0.mons@[f0.ml@[j] as int].sane());
            }
        }
        match pointer {
            Some((x, y)) => {
                let r = self.ptrtomon(x, y);
                self.selmon = r;
                proof {
                    assert forall|j: int| 0 <= j < self.ml@.len() implies self.mon_ok(#[trigger] self.ml@[j]) by {
                        assert(f0.mon_ok(f0.ml@[j]));
                    }
                    assert forall|j: int| 0 <= j < self.ml@.len() implies self.mon_consistent(#[trigger] self.ml@[j]) by {
                        assert(f0.mon_consistent(f0.ml@[j]));
                    }
                    assert forall|j: int| 0 <= j < self.ml@.len() implies (#[trigger] self.mons@[self.ml@[j] as int]).sane() by {
                        assert(f0.mons@[f0.ml@[j] as int].sane());
                    }
                }
            }
            None => {}
        }
    }

    /// Brings the monitors in line with the screens. `screens` holds what
    /// Xinerama reports when it is active, and `pointer` the pointer's
    /// position on the root window when it could be read. With Xinerama the
    /// monitors follow the distinct screens: more screens grow the list
    /// (see `spread_to`), fewer fold the extra monitors into the first (see
    /// `folded_to`); without it the first monitor covers the whole screen
    /// (see `single_ok`). Tells whether anything changed; then the monitor
    /// under the pointer (or the first) is selected.
    pub fn update_geom(&mut self, screens: &Option<Vec<Screen>>, pointer: Option<(i32, i32)>) -> (dirty: bool)
        requires
            old(self).inv(),
            old(self).sane(),
            screens matches Some(s) ==> s@.len() > 0 && forall|i: int| 0 <= i < s@.len() ==> screen_ok(#[trigger] s@[i]),
        ensures
            final(self).inv(),
            final(self).sane(),
            final(self).sw == old(self).sw && final(self).sh == old(self).sh && final(self).bh == old(self).bh,
            match screens {
                None => single_ok(*old(self), *final(self), dirty),
                Some(s) => if old(self).ml@.len() <= uniq(s@).len() {
                    spread_to(*old(self), *final(self), uniq(s@), dirty)
                } else {
                    folded_to(*old(self), *final(self), uniq(s@).len() as int, dirty)
                },
            },
            dirty ==> match pointer {
                Some(p) => pointed(*final(self), p.0 as int, p.1 as int, final(self).selmon),
                None => final(self).selmon == Some(final(self).ml@[0]),
            },
            !dirty ==> final(self).selmon == (if screens matches Some(s) && uniq(s@).len() < old(self).ml@.len()
                && exists|k: int| uniq(s@).len() <= k < old(self).ml@.len() && old(self).selmon == Some(#[trigger] old(self).ml@[k]) {
                Some(old(self).ml@[0]) } else { old(self).selmon }),
    {
        let ghost o = *self;
        let dirty = match screens {
            Some(s) => {
                let u = unique_screens(s);
                proof {
                    assert forall|i: int| 0 <= i < u@.len() implies screen_ok(#[trigger] u@[i]) by {
                        let j = choose|j: int| 0 <= j < s@.len() && s@[j] == u@[i];
                    }
                    lemma_uniq_nonempty(s@);
                }
                let n = self.mon_list().len();
                if n <= u.len() {
                    self.spread(&u)
                } else {
                    self.collapse(u.len())
                }
            }
            None => self.single(),
        };
        let ghost f0 = *self;
        if dirty {
            proof {
                assert(f0.ml@.len() > 0) by {
                    if screens is None {
                        assert(single_ok(o, f0, dirty));
                    }
                }
            }
            self.reselect(pointer);
            proof {
                let f1 = *self;
                if let Some(s) = screens {
                    if o.ml@.len() <= uniq(s@).len() {
                        lemma_spread_selmon(o, f0, f1, uniq(s@), dirty);
                    } else {
                        lemma_fold_selmon(o, f0, f1, uniq(s@).len() as int, dirty);
                    }
                } else {
                    lemma_single_selmon(o, f0, f1, dirty);
                }
            }
        }
        dirty
    }
}

} // verus!
