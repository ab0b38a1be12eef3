//! The client and monitor lists: adding and removing clients, walking the
//! lists, and finding clients and monitors.

use vstd::prelude::*;
use crate::links::{next_in, first_of, in_list};
use crate::wm::model::{Client, Monitor, Wm, link, chained, mons_chained, distinct, visible, isvisible, mon_settings_ok};

verus! {

/// Changing clients outside a list, or fields other than the list's own
/// links, keeps it chained.
pub proof fn lemma_chained_frame(cs0: Seq<Client>, cs1: Seq<Client>, head: Option<usize>, l: Seq<usize>, stack: bool)
    requires
        chained(cs0, head, l, stack),
        cs1.len() == cs0.len(),
        forall|k: int| 0 <= k < l.len() ==> link(cs1[#[trigger] l[k] as int], stack) == link(cs0[l[k] as int], stack),
    ensures
        chained(cs1, head, l, stack),
{
    assert forall|k: int| 0 <= k < l.len() implies link(cs1[#[trigger] l[k] as int], stack) == next_in(l, k) by {
        assert(link(cs1[l[k] as int], stack) == link(cs0[l[k] as int], stack));
    }
}

/// Putting `c`, absent from the chained list `l`, in front of it.
pub proof fn lemma_chained_push_front(cs0: Seq<Client>, cs1: Seq<Client>, head: Option<usize>, l: Seq<usize>, stack: bool, c: usize)
    requires
        chained(cs0, head, l, stack),
        !l.contains(c),
        (c as int) < cs0.len(),
        cs1.len() == cs0.len(),
        link(cs1[c as int], stack) == head,
        forall|k: int| 0 <= k < l.len() ==> link(cs1[#[trigger] l[k] as int], stack) == link(cs0[l[k] as int], stack),
    ensures
        chained(cs1, Some(c), seq![c] + l, stack),
{
    let n = seq![c] + l;
    assert forall|k: int| 0 <= k < n.len() implies link(cs1[#[trigger] n[k] as int], stack) == next_in(n, k) by {
        if k > 0 {
            assert(n[k] == l[k - 1]);
            assert(link(cs1[l[k - 1] as int], stack) == link(cs0[l[k - 1] as int], stack));
        }
    }
    assert forall|a: int, b: int| 0 <= a < b < n.len() implies n[a] != n[b] by {
        if a == 0 {
            assert(n[b] == l[b - 1]);
        }
    }
    assert forall|k: int| 0 <= k < n.len() implies (#[trigger] n[k] as int) < cs1.len() by {
        if k > 0 {
            assert(n[k] == l[k - 1]);
        }
    }
}

/// The position of `x` in `l`.
pub open spec fn pos(l: Seq<usize>, x: usize) -> int {
    choose|i: int| 0 <= i < l.len() && l[i] == x
}

/// The first client of `l`, from position `i` on, that shows on `mn`.
pub open spec fn first_visible(cs: Seq<Client>, mn: Monitor, l: Seq<usize>, i: int) -> Option<usize>
    decreases l.len() - i,
{
    if i < 0 || i >= l.len() {
        None
    } else if visible(cs[l[i] as int], mn) {
        Some(l[i])
    } else {
        first_visible(cs, mn, l, i + 1)
    }
}

/// `first_visible` names a client of the list, if any.
pub proof fn lemma_first_visible_in(cs: Seq<Client>, mn: Monitor, l: Seq<usize>, i: int)
    requires
        0 <= i,
    ensures
        in_list(first_visible(cs, mn, l, i), l),
        first_visible(cs, mn, l, i) matches Some(x) ==> visible(cs[x as int], mn),
    decreases l.len() - i,
{
    if i < l.len() {
        if !visible(cs[l[i] as int], mn) {
            lemma_first_visible_in(cs, mn, l, i + 1);
        }
    }
}

/// The first client of `l`, from position `i` on, that is tiled: not
/// floating and showing on `mn`.
pub open spec fn first_tiled(cs: Seq<Client>, mn: Monitor, l: Seq<usize>, i: int) -> Option<usize>
    decreases l.len() - i,
{
    if i < 0 || i >= l.len() {
        None
    } else if !cs[l[i] as int].isfloating && visible(cs[l[i] as int], mn) {
        Some(l[i])
    } else {
        first_tiled(cs, mn, l, i + 1)
    }
}

/// `first_tiled` names a tiled client of the list, if any.
pub proof fn lemma_first_tiled_in(cs: Seq<Client>, mn: Monitor, l: Seq<usize>, i: int)
    requires
        0 <= i,
    ensures
        first_tiled(cs, mn, l, i) matches Some(x) ==> exists|j: int| i <= j < l.len() && l[j] == x
            && first_tiled(cs, mn, l, i) == first_tiled(cs, mn, l, j)
            && !cs[x as int].isfloating && visible(cs[x as int], mn),
    decreases l.len() - i,
{
    if i < l.len() {
        if !(!cs[l[i] as int].isfloating && visible(cs[l[i] as int], mn)) {
            lemma_first_tiled_in(cs, mn, l, i + 1);
        }
    }
}

/// Whether point (`x`, `y`) lies in monitor `mn`'s window area.
pub open spec fn in_window_area(mn: Monitor, x: int, y: int) -> bool {
    mn.wx <= x < mn.wx + mn.ww && mn.wy <= y < mn.wy + mn.wh
}

/// The monitor a step from `cur` in direction `dir` along the list `ml`,
/// wrapping around at both ends.
pub open spec fn dir_mon(ml: Seq<usize>, cur: usize, dir: i32) -> usize {
    let p = pos(ml, cur);
    if dir > 0 {
        if p + 1 < ml.len() { ml[p + 1] } else { ml[0] }
    } else {
        if p > 0 { ml[p - 1] } else { ml[ml.len() - 1] }
    }
}

/// A list of distinct indices below `n` has at most `n` elements.
pub proof fn lemma_distinct_bound(l: Seq<usize>, n: int)
    requires
        0 <= n,
        distinct(l),
        forall|k: int| 0 <= k < l.len() ==> (l[k] as int) < n,
    ensures
        l.len() <= n,
    decreases n,
{
    if l.len() > 0 {
        if n <= 0 {
            assert((l[0] as int) < n);
        } else if exists|p: int| 0 <= p < l.len() && l[p] == (n - 1) as usize {
            let p = choose|p: int| 0 <= p < l.len() && l[p] == (n - 1) as usize;
            let r = l.remove(p);
            assert forall|k: int| 0 <= k < r.len() implies (r[k] as int) < n - 1 by {
                let kk = if k < p { k } else { k + 1 };
                assert(r[k] == l[kk]);
                assert(kk != p);
                if kk < p {
                    assert(l[kk] != l[p]);
                } else {
                    assert(l[p] != l[kk]);
                }
            }
            assert forall|a: int, b: int| 0 <= a < b < r.len() implies r[a] != r[b] by {
                let aa = if a < p { a } else { a + 1 };
                let bb = if b < p { b } else { b + 1 };
                assert(r[a] == l[aa] && r[b] == l[bb]);
            }
            lemma_distinct_bound(r, n - 1);
            assert(r.len() == l.len() - 1);
            assert(l.len() <= n);
        } else {
            assert forall|k: int| 0 <= k < l.len() implies (l[k] as int) < n - 1 by {
                if n - 1 <= usize::MAX {
                    assert(l[k] != (n - 1) as usize);
                }
            }
            lemma_distinct_bound(l, n - 1);
            assert(l.len() <= n);
        }
    }
}

/// The position of an element of a list of distinct elements.
pub proof fn lemma_pos(l: Seq<usize>, x: usize)
    requires
        l.contains(x),
    ensures
        0 <= pos(l, x) < l.len(),
        l[pos(l, x)] == x,
        distinct(l) ==> forall|i: int| 0 <= i < l.len() && l[i] == x ==> i == pos(l, x),
{
}

/// Unlinking the element at position `i` of a chained list: its
/// predecessor (or the head) takes its link.
#[verifier::rlimit(100)]
#[verifier::spinoff_prover]
pub proof fn lemma_chained_remove(cs0: Seq<Client>, cs1: Seq<Client>, head0: Option<usize>, head1: Option<usize>,
    l: Seq<usize>, i: int, stack: bool)
    requires
        chained(cs0, head0, l, stack),
        0 <= i < l.len(),
        cs1.len() == cs0.len(),
        i == 0 ==> head1 == link(cs0[l[0] as int], stack),
        i > 0 ==> head1 == head0,
        i > 0 ==> link(cs1[l[i - 1] as int], stack) == link(cs0[l[i] as int], stack),
        forall|k: int| 0 <= k < l.len() && k != i - 1 ==> link(cs1[#[trigger] l[k] as int], stack) == link(cs0[l[k] as int], stack),
    ensures
        chained(cs1, head1, l.remove(i), stack),
{
    let n = l.remove(i);
    assert forall|k: int| 0 <= k < n.len() implies link(#[trigger] cs1[n[k] as int], stack) == next_in(n, k) by {
        let kk = if k < i { k } else { k + 1 };
        assert(n[k] == l[kk]);
        if k < i - 1 {
            assert(link(cs1[l[k] as int], stack) == link(cs0[l[k] as int], stack));
            assert(link(cs0[l[k] as int], stack) == next_in(l, k));
            assert(n[k + 1] == l[k + 1]);
        } else if k == i - 1 {
            assert(link(cs0[l[i] as int], stack) == next_in(l, i));
            if i + 1 < l.len() {
                assert(n[k + 1] == l[i + 1]);
            }
        } else {
            assert(link(cs1[l[k + 1] as int], stack) == link(cs0[l[k + 1] as int], stack));
            assert(link(cs0[l[k + 1] as int], stack) == next_in(l, k + 1));
            if k + 1 < n.len() {
                assert(n[k + 1] == l[k + 2]);
            }
        }
    }
    lemma_remove_distinct(l, i);
    assert forall|k: int| 0 <= k < n.len() implies (#[trigger] n[k] as int) < cs1.len() by {
        let kk = if k < i { k } else { k + 1 };
        assert(n[k] == l[kk]);
    }
    if i == 0 {
        assert(link(cs0[l[0] as int], stack) == next_in(l, 0));
        if l.len() > 1 {
            assert(n[0] == l[1]);
        }
    } else {
        assert(n[0] == l[0]);
    }
}

/// Removing an element of a list of distinct elements keeps them distinct.
pub proof fn lemma_remove_distinct(l: Seq<usize>, i: int)
    requires
        distinct(l),
        0 <= i < l.len(),
    ensures
        distinct(l.remove(i)),
{
    let n = l.remove(i);
    assert forall|a: int, b: int| 0 <= a < b < n.len() implies n[a] != n[b] by {
        let aa = if a < i { a } else { a + 1 };
        let bb = if b < i { b } else { b + 1 };
        assert(n[a] == l[aa] && n[b] == l[bb]);
    }
}

impl Wm {
    /// The fields of the manager other than the arenas and the lists.
    pub open spec fn same_globals(&self, o: Wm) -> bool {
        &&& self.sw == o.sw && self.sh == o.sh && self.bh == o.bh && self.blw == o.blw
        &&& self.numlockmask == o.numlockmask && self.running == o.running
        &&& self.stext == o.stext && self.root == o.root
        &&& self.mons_head == o.mons_head && self.selmon == o.selmon
        &&& self.min_keycode == o.min_keycode && self.keysyms_per_keycode == o.keysyms_per_keycode
        &&& self.keysym_table == o.keysym_table
        &&& self.ml == o.ml
    }

    /// Puts client `c` at the head of its monitor's tiling list.
    pub fn attach(&mut self, c: usize)
        requires
            old(self).wf(),
            (c as int) < old(self).clients@.len(),
            old(self).clients@[c as int].alive,
            old(self).is_mon(old(self).clients@[c as int].mon),
            !old(self).cl(old(self).clients@[c as int].mon).contains(c),
        ensures
            final(self).wf(),
            final(self).same_globals(*old(self)),
            ({
                let m = old(self).clients@[c as int].mon;
                &&& final(self).cls@ == old(self).cls@.update(m as int, seq![c] + old(self).cl(m))
                &&& final(self).sls@ == old(self).sls@
                &&& final(self).clients@ == old(self).clients@.update(c as int,
                    Client { next: old(self).mons@[m as int].clients, ..old(self).clients@[c as int] })
                &&& final(self).mons@ == old(self).mons@.update(m as int,
                    Monitor { clients: Some(c), ..old(self).mons@[m as int] })
            }),
    {
        let ghost o = *self;
        let m = self.clients[c].mon;
        proof {
            let k = choose|k: int| 0 <= k < o.ml@.len() && o.ml@[k] == m;
            assert(o.mon_ok(o.ml@[k]));
        }
        let head = self.mons[m].clients;
        self.clients[c].next = head;
        self.mons[m].clients = Some(c);
        let ghost ncl = seq![c] + o.cl(m);
        self.cls = Ghost(o.cls@.update(m as int, ncl));
        proof {
            assert(mon_settings_ok(self.mons@[m as int]));
            assert forall|k: int| 0 <= k < self.ml@.len() implies self.mon_ok(#[trigger] self.ml@[k]) by {
                let mm = self.ml@[k];
                assert(o.mon_ok(mm));
                let sl = o.sl(mm);
                assert forall|j: int| 0 <= j < sl.len() implies link(self.clients@[#[trigger] sl[j] as int], true)
                    == link(o.clients@[sl[j] as int], true) by {}
                lemma_chained_frame(o.clients@, self.clients@, self.mons@[mm as int].stack, sl, true);
                if mm == m {
                    let cl = o.cl(m);
                    assert forall|j: int| 0 <= j < cl.len() implies link(self.clients@[#[trigger] cl[j] as int], false)
                        == link(o.clients@[cl[j] as int], false) by {
                        assert(cl.contains(cl[j]));
                    }
                    lemma_chained_push_front(o.clients@, self.clients@, head, cl, false, c);
                    assert forall|j: int| 0 <= j < ncl.len() implies self.clients@[#[trigger] ncl[j] as int].mon == m
                        && self.clients@[ncl[j] as int].alive by {
                        if j > 0 {
                            assert(ncl[j] == cl[j - 1]);
                        }
                    }
                } else {
                    let cl = o.cl(mm);
                    assert(self.cl(mm) == cl);
                    assert forall|j: int| 0 <= j < cl.len() implies link(self.clients@[#[trigger] cl[j] as int], false)
                        == link(o.clients@[cl[j] as int], false) by {
                        assert(o.clients@[cl[j] as int].mon == mm);
                    }
                    lemma_chained_frame(o.clients@, self.clients@, self.mons@[mm as int].clients, cl, false);
                }
            }
        }
    }

    /// Puts client `c` at the head of its monitor's focus list.
    pub fn attach_stack(&mut self, c: usize)
        requires
            old(self).wf(),
            (c as int) < old(self).clients@.len(),
            old(self).clients@[c as int].alive,
            old(self).is_mon(old(self).clients@[c as int].mon),
            !old(self).sl(old(self).clients@[c as int].mon).contains(c),
        ensures
            final(self).wf(),
            final(self).same_globals(*old(self)),
            ({
                let m = old(self).clients@[c as int].mon;
                &&& final(self).sls@ == old(self).sls@.update(m as int, seq![c] + old(self).sl(m))
                &&& final(self).cls@ == old(self).cls@
                &&& final(self).clients@ == old(self).clients@.update(c as int,
                    Client { snext: old(self).mons@[m as int].stack, ..old(self).clients@[c as int] })
                &&& final(self).mons@ == old(self).mons@.update(m as int,
                    Monitor { stack: Some(c), ..old(self).mons@[m as int] })
            }),
    {
        let ghost o = *self;
        let m = self.clients[c].mon;
        proof {
            let k = choose|k: int| 0 <= k < o.ml@.len() && o.ml@[k] == m;
            assert(o.mon_ok(o.ml@[k]));
        }
        let head = self.mons[m].stack;
        self.clients[c].snext = head;
        self.mons[m].stack = Some(c);
        let ghost nsl = seq![c] + o.sl(m);
        self.sls = Ghost(o.sls@.update(m as int, nsl));
        proof {
            assert(mon_settings_ok(self.mons@[m as int]));
            assert forall|k: int| 0 <= k < self.ml@.len() implies self.mon_ok(#[trigger] self.ml@[k]) by {
                let mm = self.ml@[k];
                assert(o.mon_ok(mm));
                let cl = o.cl(mm);
                assert forall|j: int| 0 <= j < cl.len() implies link(self.clients@[#[trigger] cl[j] as int], false)
                    == link(o.clients@[cl[j] as int], false) by {}
                lemma_chained_frame(o.clients@, self.clients@, self.mons@[mm as int].clients, cl, false);
                if mm == m {
                    let sl = o.sl(m);
                    assert forall|j: int| 0 <= j < sl.len() implies link(self.clients@[#[trigger] sl[j] as int], true)
                        == link(o.clients@[sl[j] as int], true) by {
                        assert(sl.contains(sl[j]));
                    }
                    lemma_chained_push_front(o.clients@, self.clients@, head, sl, true, c);
                    assert forall|j: int| 0 <= j < nsl.len() implies self.clients@[#[trigger] nsl[j] as int].mon == m
                        && self.clients@[nsl[j] as int].alive by {
                        if j > 0 {
                            assert(nsl[j] == sl[j - 1]);
                        }
                    }
                } else {
                    let sl = o.sl(mm);
                    assert forall|j: int| 0 <= j < sl.len() implies link(self.clients@[#[trigger] sl[j] as int], true)
                        == link(o.clients@[sl[j] as int], true) by {
                        assert(o.clients@[sl[j] as int].mon == mm);
                    }
                    lemma_chained_frame(o.clients@, self.clients@, self.mons@[mm as int].stack, sl, true);
                }
            }
        }
    }

    /// Takes client `c` out of its monitor's tiling list.
    pub fn detach(&mut self, c: usize)
        requires
            old(self).wf(),
            (c as int) < old(self).clients@.len(),
            old(self).is_mon(old(self).clients@[c as int].mon),
            old(self).cl(old(self).clients@[c as int].mon).contains(c),
        ensures
            final(self).wf(),
            final(self).same_globals(*old(self)),
            ({
                let m = old(self).clients@[c as int].mon;
                let cl = old(self).cl(m);
                let i = pos(cl, c);
                &&& final(self).cls@ == old(self).cls@.update(m as int, cl.remove(i))
                &&& final(self).sls@ == old(self).sls@
                &&& i == 0 ==> final(self).clients@ == old(self).clients@
                &&& i == 0 ==> final(self).mons@ == old(self).mons@.update(m as int,
                    Monitor { clients: old(self).clients@[c as int].next, ..old(self).mons@[m as int] })
                &&& i > 0 ==> final(self).mons@ == old(self).mons@
                &&& i > 0 ==> final(self).clients@ == old(self).clients@.update(cl[i - 1] as int,
                    Client { next: old(self).clients@[c as int].next, ..old(self).clients@[cl[i - 1] as int] })
            }),
    {
        let ghost o = *self;
        let m = self.clients[c].mon;
        let ghost cl = o.cl(m);
        proof {
            let k = choose|k: int| 0 <= k < o.ml@.len() && o.ml@[k] == m;
            assert(o.mon_ok(o.ml@[k]));
            lemma_pos(cl, c);
        }
        let ghost i = pos(cl, c);
        if self.mons[m].clients == Some(c) {
            assert(i == 0);
            let nx = self.clients[c].next;
            self.mons[m].clients = nx;
            self.cls = Ghost(o.cls@.update(m as int, cl.remove(i)));
            proof {
                lemma_chained_remove(o.clients@, self.clients@, o.mons@[m as int].clients, nx, cl, 0, false);
                self.lemma_relink_wf(o, m, cl.remove(i), false);
            }
            return;
        }
        let mut prev = self.mons[m].clients;
        let ghost mut j: int = 0;
        loop
            invariant
                chained(o.clients@, o.mons@[m as int].clients, cl, false),
                self.clients@ == o.clients@,
                0 < i < cl.len(),
                cl[i] == c,
                0 <= j < i,
                prev == Some(cl[j]),
            ensures
                prev == Some(cl[i - 1]),
            decreases i - j,
        {
            let p = prev.unwrap();
            if self.clients[p].next == Some(c) {
                assert(next_in(cl, j) == Some(c));
                assert(j + 1 == i);
                break;
            }
            prev = self.clients[p].next;
            proof {
                assert(prev == next_in(cl, j));
                j = j + 1;
            }
        }
        let p = prev.unwrap();
        let nx = self.clients[c].next;
        self.clients[p].next = nx;
        self.cls = Ghost(o.cls@.update(m as int, cl.remove(i)));
        proof {
            assert forall|k: int| 0 <= k < cl.len() && k != i - 1 implies link(self.clients@[#[trigger] cl[k] as int], false)
                == link(o.clients@[cl[k] as int], false) by {}
            lemma_chained_remove(o.clients@, self.clients@, o.mons@[m as int].clients, o.mons@[m as int].clients, cl, i, false);
            self.lemma_relink_wf(o, m, cl.remove(i), false);
        }
    }

    /// Takes client `c` out of its monitor's focus list; if it was the
    /// selected client, the first remaining client in focus order that
    /// shows on the monitor becomes selected.
    pub fn detach_stack(&mut self, c: usize)
        requires
            old(self).wf(),
            (c as int) < old(self).clients@.len(),
            old(self).is_mon(old(self).clients@[c as int].mon),
            old(self).sl(old(self).clients@[c as int].mon).contains(c),
        ensures
            final(self).wf(),
            final(self).same_globals(*old(self)),
            ({
                let m = old(self).clients@[c as int].mon;
                let sl = old(self).sl(m);
                let i = pos(sl, c);
                let nsl = sl.remove(i);
                &&& final(self).sls@ == old(self).sls@.update(m as int, nsl)
                &&& final(self).cls@ == old(self).cls@
                &&& i == 0 ==> final(self).clients@ == old(self).clients@
                &&& i > 0 ==> final(self).clients@ == old(self).clients@.update(sl[i - 1] as int,
                    Client { snext: old(self).clients@[c as int].snext, ..old(self).clients@[sl[i - 1] as int] })
                &&& final(self).mons@ == old(self).mons@.update(m as int, Monitor {
                    stack: first_of(nsl),
                    sel: if old(self).mons@[m as int].sel == Some(c) {
                        first_visible(old(self).clients@, old(self).mons@[m as int], nsl, 0)
                    } else {
                        old(self).mons@[m as int].sel
                    },
                    ..old(self).mons@[m as int] })
            }),
    {
        let ghost o = *self;
        let m = self.clients[c].mon;
        let ghost sl = o.sl(m);
        proof {
            let k = choose|k: int| 0 <= k < o.ml@.len() && o.ml@[k] == m;
            assert(o.mon_ok(o.ml@[k]));
            lemma_pos(sl, c);
        }
        let ghost i = pos(sl, c);
        let ghost nsl = sl.remove(i);
        if self.mons[m].stack == Some(c) {
            assert(i == 0);
            let nx = self.clients[c].snext;
            self.mons[m].stack = nx;
            proof {
                lemma_chained_remove(o.clients@, self.clients@, o.mons@[m as int].stack, nx, sl, 0, true);
            }
        } else {
            let mut prev = self.mons[m].stack;
            let ghost mut j: int = 0;
            loop
                invariant
                    chained(o.clients@, o.mons@[m as int].stack, sl, true),
                    self.clients@ == o.clients@,
                    0 < i < sl.len(),
                    sl[i] == c,
                    0 <= j < i,
                    prev == Some(sl[j]),
                ensures
                    prev == Some(sl[i - 1]),
                decreases i - j,
            {
                let p = prev.unwrap();
                if self.clients[p].snext == Some(c) {
                    assert(next_in(sl, j) == Some(c));
                    break;
                }
                prev = self.clients[p].snext;
                proof {
                    assert(prev == next_in(sl, j));
                    j = j + 1;
                }
            }
            let p = prev.unwrap();
            let nx = self.clients[c].snext;
            self.clients[p].snext = nx;
            proof {
                assert forall|k: int| 0 <= k < sl.len() && k != i - 1 implies link(self.clients@[#[trigger] sl[k] as int], true)
                    == link(o.clients@[sl[k] as int], true) by {}
                lemma_chained_remove(o.clients@, self.clients@, o.mons@[m as int].stack, o.mons@[m as int].stack, sl, i, true);
            }
        }
        self.sls = Ghost(o.sls@.update(m as int, nsl));
        assert(self.mons@[m as int].stack == first_of(nsl));
        if self.mons[m].sel == Some(c) {
            let ghost cs = self.clients@;
            let mut t = self.mons[m].stack;
            let ghost mut j: int = 0;
            loop
                invariant
                    chained(cs, self.mons@[m as int].stack, nsl, true),
                    self.clients@ == cs,
                    forall|x: int| 0 <= x < cs.len() ==> (#[trigger] cs[x]).tags == o.clients@[x].tags,
                    self.mons@[m as int].tagset == o.mons@[m as int].tagset,
                    self.mons@[m as int].seltags == o.mons@[m as int].seltags,
                    self.mons@[m as int].seltags < 2,
                    (m as int) < self.mons@.len(),
                    0 <= j <= nsl.len(),
                    t == (if j < nsl.len() { Some(nsl[j]) } else { None }),
                    first_visible(o.clients@, o.mons@[m as int], nsl, 0) == first_visible(o.clients@, o.mons@[m as int], nsl, j),
                ensures
                    t == first_visible(o.clients@, o.mons@[m as int], nsl, 0),
                decreases nsl.len() - j,
            {
                match t {
                    None => {
                        break;
                    }
                    Some(ti) => {
                        assert(cs[ti as int].tags == o.clients@[ti as int].tags);
                        if isvisible(&self.clients[ti], &self.mons[m]) {
                            break;
                        }
                        t = self.clients[ti].snext;
                        proof {
                            assert(t == next_in(nsl, j));
                            j = j + 1;
                        }
                    }
                }
            }
            self.mons[m].sel = t;
        }
        proof {
            self.lemma_relink_wf(o, m, nsl, true);
        }
    }

    /// The live monitors, in list order.
    pub fn mon_list(&self) -> (v: Vec<usize>)
        requires
            self.wf(),
        ensures
            v@ == self.ml@,
    {
        let mut v: Vec<usize> = Vec::new();
        let mut cur = self.mons_head;
        let ghost l = self.ml@;
        while cur.is_some()
            invariant
                mons_chained(self.mons@, self.mons_head, l),
                v@.len() <= l.len(),
                v@ == l.take(v@.len() as int),
                cur == (if v@.len() < l.len() { Some(l[v@.len() as int]) } else { None }),
            decreases l.len() - v@.len(),
        {
            let i = cur.unwrap();
            let ghost j = v@.len() as int;
            v.push(i);
            cur = self.mons[i].next;
            assert(cur == next_in(l, j));
            assert(v@ =~= l.take(v@.len() as int));
        }
        assert(v@ =~= l);
        v
    }

    /// Monitor `m`'s clients in tiling order.
    pub fn client_list(&self, m: usize) -> (v: Vec<usize>)
        requires
            self.wf(),
            self.is_mon(m),
        ensures
            v@ == self.cl(m),
    {
        proof {
            let k = choose|k: int| 0 <= k < self.ml@.len() && self.ml@[k] == m;
            assert(self.mon_ok(self.ml@[k]));
        }
        self.walk(self.mons[m].clients, Ghost(self.cl(m)), false)
    }

    /// Monitor `m`'s clients in focus order.
    pub fn stack_list(&self, m: usize) -> (v: Vec<usize>)
        requires
            self.wf(),
            self.is_mon(m),
        ensures
            v@ == self.sl(m),
    {
        proof {
            let k = choose|k: int| 0 <= k < self.ml@.len() && self.ml@[k] == m;
            assert(self.mon_ok(self.ml@[k]));
        }
        self.walk(self.mons[m].stack, Ghost(self.sl(m)), true)
    }

    /// The clients reached from `head` along tiling (or focus) links.
    fn walk(&self, head: Option<usize>, Ghost(l): Ghost<Seq<usize>>, stack: bool) -> (v: Vec<usize>)
        requires
            chained(self.clients@, head, l, stack),
        ensures
            v@ == l,
    {
        let mut v: Vec<usize> = Vec::new();
        let mut cur = head;
        while cur.is_some()
            invariant
                chained(self.clients@, head, l, stack),
                v@.len() <= l.len(),
                v@ == l.take(v@.len() as int),
                cur == (if v@.len() < l.len() { Some(l[v@.len() as int]) } else { None }),
            decreases l.len() - v@.len(),
        {
            let i = cur.unwrap();
            let ghost j = v@.len() as int;
            v.push(i);
            cur = if stack { self.clients[i].snext } else { self.clients[i].next };
            assert(cur == next_in(l, j));
            assert(v@ =~= l.take(v@.len() as int));
        }
        assert(v@ =~= l);
        v
    }

    /// The first client, searching the monitors in order and each one's
    /// clients in tiling order, whose window is `w`.
    pub fn wintoclient(&self, w: u32) -> (r: Option<usize>)
        requires
            self.wf(),
        ensures
            r matches Some(c) ==> exists|k: int, j: int| 0 <= k < self.ml@.len() && 0 <= j < self.cl(self.ml@[k]).len()
                && self.cl(self.ml@[k])[j] == c
                && self.clients@[c as int].win == w
                && (forall|k2: int, j2: int| 0 <= k2 < k && 0 <= j2 < self.cl(self.ml@[k2]).len()
                    ==> self.clients@[self.cl(self.ml@[k2])[j2] as int].win != w)
                && (forall|j2: int| 0 <= j2 < j ==> self.clients@[self.cl(self.ml@[k])[j2] as int].win != w),
            r is None ==> forall|k: int, j: int| 0 <= k < self.ml@.len() && 0 <= j < self.cl(self.ml@[k]).len()
                ==> self.clients@[self.cl(self.ml@[k])[j] as int].win != w,
    {
        let ms = self.mon_list();
        assert forall|k3: int| 0 <= k3 < self.ml@.len() implies (#[trigger] self.ml@[k3] as int) < self.mons@.len()
            && chained(self.clients@, self.mons@[self.ml@[k3] as int].clients, self.cl(self.ml@[k3]), false) by {
            assert(self.mon_ok(self.ml@[k3]));
        }
        let mut k: usize = 0;
        while k < ms.len()
            invariant
                ms@ == self.ml@,
                forall|k3: int| 0 <= k3 < self.ml@.len() ==> (#[trigger] self.ml@[k3] as int) < self.mons@.len()
                    && chained(self.clients@, self.mons@[self.ml@[k3] as int].clients, self.cl(self.ml@[k3]), false),
                k <= ms@.len(),
                forall|k2: int, j2: int| 0 <= k2 < k && 0 <= j2 < self.cl(self.ml@[k2]).len()
                    ==> self.clients@[self.cl(self.ml@[k2])[j2] as int].win != w,
            decreases ms@.len() - k,
        {
            let m = ms[k];
            assert(self.ml@[k as int] == m);
            let cs = self.walk(self.mons[m].clients, Ghost(self.cl(m)), false);
            let mut j: usize = 0;
            while j < cs.len()
                invariant
                    cs@ == self.cl(m),
                    0 <= k < self.ml@.len(),
                    m == self.ml@[k as int],
                    chained(self.clients@, self.mons@[m as int].clients, self.cl(m), false),
                    forall|k2: int, j2: int| 0 <= k2 < k && 0 <= j2 < self.cl(self.ml@[k2]).len()
                        ==> self.clients@[self.cl(self.ml@[k2])[j2] as int].win != w,
                    j <= cs@.len(),
                    forall|j2: int| 0 <= j2 < j ==> self.clients@[self.cl(m)[j2] as int].win != w,
                decreases cs@.len() - j,
            {
                let c = cs[j];
                assert(self.cl(m)[j as int] == c);
                if self.clients[c].win == w {
                    return Some(c);
                }
                j += 1;
            }
            k += 1;
        }
        None
    }

    /// The first tiled client from `c` on along the tiling list of monitor
    /// `m`.
    pub(crate) fn nexttiled(&self, c: Option<usize>, m: usize, Ghost(i): Ghost<int>) -> (r: Option<usize>)
        requires
            (m as int) < self.mons@.len(),
            self.mons@[m as int].seltags < 2,
            chained(self.clients@, self.mons@[m as int].clients, self.cl(m), false),
            0 <= i <= self.cl(m).len(),
            c == (if i < self.cl(m).len() { Some(self.cl(m)[i]) } else { None }),
        ensures
            r == first_tiled(self.clients@, self.mons@[m as int], self.cl(m), i),
    {
        let ghost l = self.cl(m);
        let ghost mn = self.mons@[m as int];
        let ghost mut j: int = i;
        let mut cur = c;
        let mut found = false;
        while !found && cur.is_some()
            invariant
                chained(self.clients@, self.mons@[m as int].clients, l, false),
                mn == self.mons@[m as int],
                mn.seltags < 2,
                (m as int) < self.mons@.len(),
                0 <= i <= j <= l.len(),
                cur == (if j < l.len() { Some(l[j]) } else { None }),
                first_tiled(self.clients@, mn, l, i) == (if found { cur } else { first_tiled(self.clients@, mn, l, j) }),
            decreases l.len() - j, if found { 0int } else { 1int },
        {
            let ci = cur.unwrap();
            assert(l[j] == ci);
            if !self.clients[ci].isfloating && isvisible(&self.clients[ci], &self.mons[m]) {
                found = true;
            } else {
                cur = self.clients[ci].next;
                proof {
                    assert(link(self.clients@[l[j] as int], false) == next_in(l, j));
                    j = j + 1;
                }
            }
        }
        cur
    }

    /// The first monitor, in list order, whose window area holds the point
    /// (`x`, `y`); the selected monitor if none does.
    pub fn ptrtomon(&self, x: i32, y: i32) -> (r: Option<usize>)
        requires
            self.wf(),
            self.sane(),
        ensures
            (r matches Some(m) && exists|k: int| 0 <= k < self.ml@.len() && self.ml@[k] == m
                && in_window_area(self.mons@[m as int], x as int, y as int)
                && forall|k2: int| 0 <= k2 < k ==> !in_window_area(self.mons@[self.ml@[k2] as int], x as int, y as int))
            || (r == self.selmon && forall|k: int| 0 <= k < self.ml@.len()
                ==> !in_window_area(self.mons@[self.ml@[k] as int], x as int, y as int)),
    {
        let ms = self.mon_list();
        let mut k: usize = 0;
        while k < ms.len()
            invariant
                self.wf(),
                self.sane(),
                ms@ == self.ml@,
                k <= ms@.len(),
                forall|k2: int| 0 <= k2 < k ==> !in_window_area(self.mons@[self.ml@[k2] as int], x as int, y as int),
            decreases ms@.len() - k,
        {
            let m = ms[k];
            assert(self.mons@[self.ml@[k as int] as int].sane());
            let mon = &self.mons[m];
            if x >= mon.wx && x < mon.wx + mon.ww && y >= mon.wy && y < mon.wy + mon.wh {
                return Some(m);
            }
            k += 1;
        }
        self.selmon
    }

    /// The monitor next to the selected one in direction `dir` (forward
    /// when positive), wrapping around; none without a selected monitor.
    pub fn dirtomon(&self, dir: i32) -> (r: Option<usize>)
        requires
            self.wf(),
        ensures
            self.selmon is None ==> r is None,
            self.selmon matches Some(cur) ==> r == Some(dir_mon(self.ml@, cur, dir)),
    {
        let cur = match self.selmon {
            Some(c) => c,
            None => {
                return None;
            }
        };
        let ghost l = self.ml@;
        proof {
            lemma_pos(l, cur);
        }
        let ghost p = pos(l, cur);
        assert(self.mons@[l[p] as int].next == next_in(l, p));
        if dir > 0 {
            match self.mons[cur].next {
                Some(n) => Some(n),
                None => self.mons_head,
            }
        } else {
            let all = self.mon_list();
            if Some(cur) == self.mons_head {
                assert(p == 0);
                Some(all[all.len() - 1])
            } else {
                let mut prev = self.mons_head;
                let ghost mut j: int = 0;
                loop
                    invariant
                        mons_chained(self.mons@, self.mons_head, l),
                        0 < p < l.len(),
                        l[p] == cur,
                        0 <= j < p,
                        prev == Some(l[j]),
                    ensures
                        prev == Some(l[p - 1]),
                    decreases p - j,
                {
                    let q = prev.unwrap();
                    if self.mons[q].next == Some(cur) {
                        assert(next_in(l, j) == Some(cur));
                        break;
                    }
                    prev = self.mons[q].next;
                    proof {
                        assert(prev == next_in(l, j));
                        j = j + 1;
                    }
                }
                prev
            }
        }
    }

    /// A manager for a screen `sw` by `sh` with root window `root` and bar
    /// height `bh`: no monitors, no clients, and the status text
    /// "dwm-5.8.2".
    pub fn new(sw: i32, sh: i32, bh: i32, root: u32) -> (w: Wm)
        ensures
            w.inv(),
            w.sw == sw && w.sh == sh && w.bh == bh && w.root == root,
            w.blw == 0 && w.numlockmask == 0 && w.running,
            w.stext@ == seq![100u8, 119u8, 109u8, 45u8, 53u8, 46u8, 56u8, 46u8, 50u8],
            w.clients@.len() == 0 && w.mons@.len() == 0,
            w.mons_head is None && w.selmon is None,
            w.min_keycode == 0 && w.keysyms_per_keycode == 0 && w.keysym_table@.len() == 0,
            w.ml@.len() == 0,
    {
        let mut stext: Vec<u8> = Vec::new();
        stext.push(100u8);
        stext.push(119u8);
        stext.push(109u8);
        stext.push(45u8);
        stext.push(53u8);
        stext.push(46u8);
        stext.push(56u8);
        stext.push(46u8);
        stext.push(50u8);
        let w = Wm {
            sw, sh, bh, blw: 0, numlockmask: 0, running: true, stext, root,
            clients: Vec::new(), mons: Vec::new(), mons_head: None, selmon: None,
            min_keycode: 0, keysyms_per_keycode: 0, keysym_table: Vec::new(),
            ml: Ghost(Seq::empty()), cls: Ghost(Seq::empty()), sls: Ghost(Seq::empty()),
        };
        assert(w.stext@ =~= seq![100u8, 119u8, 109u8, 45u8, 53u8, 46u8, 56u8, 46u8, 50u8]);
        w
    }

    /// Stores the live client `c` in the first slot of a client that is
    /// gone, or in a new slot; returns the slot.
    pub fn alloc_client(&mut self, c: Client) -> (r: usize)
        requires
            old(self).wf(),
            c.alive,
        ensures
            final(self).wf(),
            final(self).same_globals(*old(self)),
            final(self).mons@ == old(self).mons@,
            final(self).cls@ == old(self).cls@,
            final(self).sls@ == old(self).sls@,
            (r as int) <= old(self).clients@.len(),
            (r as int) < old(self).clients@.len() ==> !old(self).clients@[r as int].alive
                && final(self).clients@ == old(self).clients@.update(r as int, c)
                && forall|i: int| 0 <= i < r ==> old(self).clients@[i].alive,
            (r as int) == old(self).clients@.len() ==> final(self).clients@ == old(self).clients@.push(c)
                && forall|i: int| 0 <= i < old(self).clients@.len() ==> old(self).clients@[i].alive,
    {
        let ghost o = *self;
        let mut i: usize = 0;
        while i < self.clients.len()
            invariant
                *self == o,
                i <= o.clients@.len(),
                forall|j: int| 0 <= j < i ==> o.clients@[j].alive,
            ensures
                *self == o,
                i <= o.clients@.len(),
                forall|j: int| 0 <= j < i ==> o.clients@[j].alive,
                i < o.clients@.len() ==> !o.clients@[i as int].alive,
            decreases o.clients@.len() - i,
        {
            if !self.clients[i].alive {
                break;
            }
            i += 1;
        }
        if i < self.clients.len() {
            self.clients.set(i, c);
        } else {
            self.clients.push(c);
        }
        proof {
            self.lemma_live_clients_kept(o);
        }
        i
    }

    /// Stores monitor `mn` in the first slot of a monitor that is gone, or
    /// in a new slot, with empty lists; returns the slot. It is not yet in
    /// the monitor list.
    pub fn alloc_monitor(&mut self, mn: Monitor) -> (r: usize)
        requires
            old(self).wf(),
            mn.alive,
        ensures
            final(self).wf(),
            final(self).same_globals(*old(self)),
            final(self).clients@ == old(self).clients@,
            (r as int) <= old(self).mons@.len(),
            !old(self).is_mon(r),
            (r as int) < old(self).mons@.len() ==> !old(self).mons@[r as int].alive
                && final(self).mons@ == old(self).mons@.update(r as int, mn)
                && forall|i: int| 0 <= i < r ==> old(self).mons@[i].alive,
            (r as int) == old(self).mons@.len() ==> final(self).mons@ == old(self).mons@.push(mn)
                && forall|i: int| 0 <= i < old(self).mons@.len() ==> old(self).mons@[i].alive,
            final(self).cl(r).len() == 0,
            final(self).sl(r).len() == 0,
            forall|m: usize| (m as int) < old(self).mons@.len() && m != r ==> final(self).cl(m) == old(self).cl(m) && final(self).sl(m) == old(self).sl(m),
    {
        let ghost o = *self;
        let mut i: usize = 0;
        while i < self.mons.len()
            invariant
                *self == o,
                i <= o.mons@.len(),
                forall|j: int| 0 <= j < i ==> o.mons@[j].alive,
            ensures
                *self == o,
                i <= o.mons@.len(),
                forall|j: int| 0 <= j < i ==> o.mons@[j].alive,
                i < o.mons@.len() ==> !o.mons@[i as int].alive,
            decreases o.mons@.len() - i,
        {
            if !self.mons[i].alive {
                break;
            }
            i += 1;
        }
        if i < self.mons.len() {
            self.mons.set(i, mn);
            self.cls = Ghost(o.cls@.update(i as int, Seq::empty()));
            self.sls = Ghost(o.sls@.update(i as int, Seq::empty()));
        } else {
            self.mons.push(mn);
            self.cls = Ghost(o.cls@.push(Seq::empty()));
            self.sls = Ghost(o.sls@.push(Seq::empty()));
        }
        proof {
            assert(!o.is_mon(i)) by {
                if o.ml@.contains(i) {
                    let k = choose|k: int| 0 <= k < o.ml@.len() && o.ml@[k] == i;
                    assert(o.mons@[o.ml@[k] as int].alive);
                }
            }
            assert forall|k: int| 0 <= k < o.ml@.len() implies #[trigger] self.mons@[o.ml@[k] as int] == o.mons@[o.ml@[k] as int]
                && self.cls@[o.ml@[k] as int] == o.cls@[o.ml@[k] as int]
                && self.sls@[o.ml@[k] as int] == o.sls@[o.ml@[k] as int] by {
                assert(o.ml@.contains(o.ml@[k]));
            }
            self.lemma_live_mons_kept(o);
        }
        i
    }

    /// Appends the monitor in slot `m`, not yet listed, at the end of the
    /// monitor list.
    pub fn append_monitor(&mut self, m: usize)
        requires
            old(self).wf(),
            (m as int) < old(self).mons@.len(),
            !old(self).is_mon(m),
            old(self).mons@[m as int].alive,
            old(self).mons@[m as int].next is None,
            old(self).mons@[m as int].clients is None,
            old(self).mons@[m as int].stack is None,
            mon_settings_ok(old(self).mons@[m as int]),
            old(self).cl(m).len() == 0,
            old(self).sl(m).len() == 0,
        ensures
            final(self).wf(),
            final(self).ml@ == old(self).ml@.push(m),
            final(self).clients@ == old(self).clients@,
            final(self).cls@ == old(self).cls@,
            final(self).sls@ == old(self).sls@,
            final(self).selmon == old(self).selmon,
            final(self).mons@.len() == old(self).mons@.len(),
            forall|i: int| 0 <= i < old(self).mons@.len() ==> (#[trigger] final(self).mons@[i]) == (Monitor {
                next: final(self).mons@[i].next, ..old(self).mons@[i] }),
            final(self).mons_head == (if old(self).ml@.len() == 0 { Some(m) } else { old(self).mons_head }),
            *final(self) == (Wm { mons: final(self).mons, mons_head: final(self).mons_head, ml: final(self).ml, ..*old(self) }),
    {
        let ghost o = *self;
        let ghost l = o.ml@;
        match self.mons_head {
            None => {
                self.mons_head = Some(m);
            }
            Some(head) => {
                let mut last = head;
                let ghost mut j: int = 0;
                loop
                    invariant
                        mons_chained(self.mons@, self.mons_head, l),
                        *self == o,
                        l.len() > 0,
                        0 <= j < l.len(),
                        last == l[j],
                    ensures
                        last == l[l.len() - 1],
                    decreases l.len() - j,
                {
                    assert(self.mons@[l[j] as int].next == next_in(l, j));
                    match self.mons[last].next {
                        None => {
                            break;
                        }
                        Some(nx) => {
                            last = nx;
                            proof {
                                j = j + 1;
                            }
                        }
                    }
                }
                self.mons[last].next = Some(m);
            }
        }
        self.ml = Ghost(l.push(m));
        proof {
            let nl = l.push(m);
            assert forall|k: int| 0 <= k < nl.len() implies (#[trigger] self.mons@[nl[k] as int]).next == next_in(nl, k)
                && self.mons@[nl[k] as int].alive by {
                if k < l.len() {
                    assert(o.mons@[l[k] as int].next == next_in(l, k));
                    assert(l[k] != m) by {
                        assert(l.contains(l[k]));
                    }
                }
            }
            assert forall|a: int, b: int| 0 <= a < b < nl.len() implies nl[a] != nl[b] by {
                if b == l.len() {
                    assert(l.contains(l[a]));
                }
            }
            assert forall|k: int| 0 <= k < nl.len() implies self.mon_ok(#[trigger] nl[k]) by {
                let mm = nl[k];
                if k < l.len() {
                    assert(o.mon_ok(l[k]));
                    assert(self.mons@[mm as int].clients == o.mons@[mm as int].clients);
                    assert(self.mons@[mm as int].stack == o.mons@[mm as int].stack);
                    assert(mon_settings_ok(self.mons@[mm as int]));
                } else {
                    assert(mm == m);
                }
            }
            assert(in_list(self.selmon, nl)) by {
                if self.selmon is Some {
                    let s = self.selmon.unwrap();
                    let k = choose|k: int| 0 <= k < l.len() && l[k] == s;
                    assert(nl[k] == s);
                }
            }
        }
    }

    /// Takes monitor `m`, not the selected one, out of the monitor list and
    /// marks it gone.
    #[verifier::rlimit(100)]
    #[verifier::spinoff_prover]
    pub fn cleanup_mon(&mut self, m: usize)
        requires
            old(self).wf(),
            old(self).is_mon(m),
            old(self).selmon != Some(m),
        ensures
            final(self).wf(),
            final(self).ml@ == old(self).ml@.remove(pos(old(self).ml@, m)),
            final(self).clients@ == old(self).clients@,
            final(self).cls@ == old(self).cls@,
            final(self).sls@ == old(self).sls@,
            final(self).selmon == old(self).selmon,
            !final(self).mons@[m as int].alive,
            final(self).mons@.len() == old(self).mons@.len(),
            forall|i: int| 0 <= i < old(self).mons@.len() && i != m ==> (#[trigger] final(self).mons@[i]) == (Monitor {
                next: final(self).mons@[i].next, ..old(self).mons@[i] }),
            *final(self) == (Wm { mons: final(self).mons, mons_head: final(self).mons_head, ml: final(self).ml, ..*old(self) }),
    {
        let ghost o = *self;
        let ghost l = o.ml@;
        proof {
            lemma_pos(l, m);
        }
        let ghost i = pos(l, m);
        assert(o.mons@[l[i] as int].next == next_in(l, i));
        if self.mons_head == Some(m) {
            assert(i == 0);
            self.mons_head = self.mons[m].next;
        } else {
            let mut prev = self.mons_head;
            let ghost mut j: int = 0;
            loop
                invariant
                    mons_chained(self.mons@, self.mons_head, l),
                    *self == o,
                    0 < i < l.len(),
                    l[i] == m,
                    0 <= j < i,
                    prev == Some(l[j]),
                ensures
                    prev == Some(l[i - 1]),
                decreases i - j,
            {
                let p = prev.unwrap();
                assert(self.mons@[l[j] as int].next == next_in(l, j));
                if self.mons[p].next == Some(m) {
                    break;
                }
                prev = self.mons[p].next;
                proof {
                    j = j + 1;
                }
            }
            let p = prev.unwrap();
            let nx = self.mons[m].next;
            self.mons[p].next = nx;
        }
        self.mons[m].alive = false;
        let ghost nl = l.remove(i);
        self.ml = Ghost(nl);
        proof {
            assert forall|k: int| 0 <= k < nl.len() implies (#[trigger] self.mons@[nl[k] as int]).next == next_in(nl, k)
                && self.mons@[nl[k] as int].alive by {
                let kk = if k < i { k } else { k + 1 };
                assert(nl[k] == l[kk]);
                assert(o.mons@[l[kk] as int].next == next_in(l, kk));
                assert(o.mons@[l[kk] as int].alive);
                if k + 1 < nl.len() {
                    let k1 = if k + 1 < i { k + 1 } else { k + 2 };
                    assert(nl[k + 1] == l[k1]);
                }
            }
            assert forall|a: int, b: int| 0 <= a < b < nl.len() implies nl[a] != nl[b] by {
                let aa = if a < i { a } else { a + 1 };
                let bb = if b < i { b } else { b + 1 };
                assert(nl[a] == l[aa] && nl[b] == l[bb]);
            }
            assert forall|k: int| 0 <= k < nl.len() implies (#[trigger] nl[k] as int) < self.mons@.len() by {
                let kk = if k < i { k } else { k + 1 };
                assert(nl[k] == l[kk]);
            }
            if i == 0 {
                assert(self.mons_head == next_in(l, 0));
            }
            assert forall|k: int| 0 <= k < nl.len() implies self.mon_ok(#[trigger] nl[k]) by {
                let kk = if k < i { k } else { k + 1 };
                assert(nl[k] == l[kk]);
                assert(o.mon_ok(l[kk]));
                assert(self.mons@[nl[k] as int].clients == o.mons@[nl[k] as int].clients);
                assert(self.mons@[nl[k] as int].stack == o.mons@[nl[k] as int].stack);
                assert(mon_settings_ok(self.mons@[nl[k] as int]));
            }
            assert(in_list(self.selmon, nl)) by {
                if self.selmon is Some {
                    let s = self.selmon.unwrap();
                    let k = choose|k: int| 0 <= k < l.len() && l[k] == s;
                    assert(k != i);
                    let kk = if k < i { k } else { k - 1 };
                    assert(nl[kk] == s);
                }
            }
        }
    }

    /// Changing only clients that are gone, or adding clients, keeps the
    /// invariant.
    proof fn lemma_live_clients_kept(&self, o: Wm)
        requires
            o.wf(),
            self.same_globals(o),
            self.mons@ == o.mons@,
            self.cls@ == o.cls@,
            self.sls@ == o.sls@,
            self.clients@.len() >= o.clients@.len(),
            forall|j: int| 0 <= j < o.clients@.len() && o.clients@[j].alive ==> #[trigger] self.clients@[j] == o.clients@[j],
        ensures
            self.wf(),
    {
        assert forall|k: int| 0 <= k < self.ml@.len() implies self.mon_ok(#[trigger] self.ml@[k]) by {
            let mm = self.ml@[k];
            assert(o.mon_ok(mm));
            let cl = o.cl(mm);
            let sl = o.sl(mm);
            assert forall|j: int| 0 <= j < cl.len() implies #[trigger] self.clients@[cl[j] as int] == o.clients@[cl[j] as int] by {
                assert(o.clients@[cl[j] as int].alive);
            }
            assert forall|j: int| 0 <= j < sl.len() implies #[trigger] self.clients@[sl[j] as int] == o.clients@[sl[j] as int] by {
                assert(o.clients@[sl[j] as int].alive);
            }
            assert(chained(self.clients@, self.mons@[mm as int].clients, cl, false)) by {
                assert forall|j: int| 0 <= j < cl.len() implies link(#[trigger] self.clients@[cl[j] as int], false) == next_in(cl, j) by {
                    assert(self.clients@[cl[j] as int] == o.clients@[cl[j] as int]);
                }
            }
            assert(chained(self.clients@, self.mons@[mm as int].stack, sl, true)) by {
                assert forall|j: int| 0 <= j < sl.len() implies link(#[trigger] self.clients@[sl[j] as int], true) == next_in(sl, j) by {
                    assert(self.clients@[sl[j] as int] == o.clients@[sl[j] as int]);
                }
            }
        }
    }

    /// Changing only monitor slots that are not listed keeps the invariant.
    proof fn lemma_live_mons_kept(&self, o: Wm)
        requires
            o.wf(),
            self.same_globals(o),
            self.clients@ == o.clients@,
            self.mons@.len() >= o.mons@.len(),
            self.cls@.len() == self.mons@.len(),
            self.sls@.len() == self.mons@.len(),
            forall|k: int| 0 <= k < o.ml@.len() ==> #[trigger] self.mons@[o.ml@[k] as int] == o.mons@[o.ml@[k] as int]
                && self.cls@[o.ml@[k] as int] == o.cls@[o.ml@[k] as int]
                && self.sls@[o.ml@[k] as int] == o.sls@[o.ml@[k] as int],
        ensures
            self.wf(),
    {
        assert(mons_chained(self.mons@, self.mons_head, self.ml@)) by {
            assert forall|k: int| 0 <= k < self.ml@.len() implies (#[trigger] self.mons@[self.ml@[k] as int]).next == next_in(self.ml@, k)
                && self.mons@[self.ml@[k] as int].alive by {
                assert(o.mons@[o.ml@[k] as int].next == next_in(o.ml@, k));
                assert(o.mons@[o.ml@[k] as int].alive);
            }
        }
        assert forall|k: int| 0 <= k < self.ml@.len() implies self.mon_ok(#[trigger] self.ml@[k]) by {
            let mm = self.ml@[k];
            assert(o.mon_ok(mm));
            assert(self.mons@[mm as int] == o.mons@[mm as int]);
        }
    }

    /// Changing monitors' fields other than their links, heads and
    /// liveness, with their settings kept in range, keeps the invariant;
    /// keeping the selected clients too keeps consistency.
    pub proof fn lemma_mon_fields(&self, o: Wm)
        requires
            o.wf(),
            self.same_globals(o),
            self.clients@ == o.clients@,
            self.cls@ == o.cls@,
            self.sls@ == o.sls@,
            self.mons@.len() == o.mons@.len(),
            forall|i: int| 0 <= i < o.mons@.len() ==> (#[trigger] self.mons@[i]).next == o.mons@[i].next
                && self.mons@[i].alive == o.mons@[i].alive
                && self.mons@[i].clients == o.mons@[i].clients
                && self.mons@[i].stack == o.mons@[i].stack,
            forall|k: int| 0 <= k < o.ml@.len() ==> mon_settings_ok(#[trigger] self.mons@[o.ml@[k] as int]),
        ensures
            self.wf(),
            (o.consistent() && forall|i: int| 0 <= i < o.mons@.len() ==> (#[trigger] self.mons@[i]).sel == o.mons@[i].sel)
                ==> self.consistent(),
    {
        assert(mons_chained(self.mons@, self.mons_head, self.ml@)) by {
            assert forall|k: int| 0 <= k < self.ml@.len() implies (#[trigger] self.mons@[self.ml@[k] as int]).next == next_in(self.ml@, k)
                && self.mons@[self.ml@[k] as int].alive by {
                assert(o.mons@[o.ml@[k] as int].next == next_in(o.ml@, k));
                assert(o.mons@[o.ml@[k] as int].alive);
            }
        }
        assert forall|k: int| 0 <= k < self.ml@.len() implies self.mon_ok(#[trigger] self.ml@[k]) by {
            assert(o.mon_ok(o.ml@[k]));
        }
        if o.consistent() && forall|i: int| 0 <= i < o.mons@.len() ==> (#[trigger] self.mons@[i]).sel == o.mons@[i].sel {
            assert forall|k: int| 0 <= k < self.ml@.len() implies self.mon_consistent(#[trigger] self.ml@[k]) by {
                assert(o.mon_consistent(o.ml@[k]));
            }
        }
    }

    /// After the tiling (or, with `stack`, focus) links of monitor `m`'s
    /// clients changed and its list became `nl`, chained in the new state,
    /// the invariant holds again.
    proof fn lemma_relink_wf(&self, o: Wm, m: usize, nl: Seq<usize>, stack: bool)
        requires
            o.wf(),
            o.is_mon(m),
            !stack ==> self.cls@ == o.cls@.update(m as int, nl) && self.sls@ == o.sls@,
            stack ==> self.sls@ == o.sls@.update(m as int, nl) && self.cls@ == o.cls@,
            self.same_globals(o),
            self.clients@.len() == o.clients@.len(),
            forall|x: int| 0 <= x < o.clients@.len() ==> link(#[trigger] self.clients@[x], !stack) == link(o.clients@[x], !stack)
                && self.clients@[x].mon == o.clients@[x].mon && self.clients@[x].alive == o.clients@[x].alive,
            forall|x: int| 0 <= x < o.clients@.len() && o.clients@[x].mon != m ==> link(#[trigger] self.clients@[x], stack) == link(o.clients@[x], stack),
            self.mons@.len() == o.mons@.len(),
            forall|x: int| 0 <= x < o.mons@.len() && x != m ==> #[trigger] self.mons@[x] == o.mons@[x],
            self.mons@[m as int].next == o.mons@[m as int].next,
            self.mons@[m as int].alive == o.mons@[m as int].alive,
            mon_settings_ok(self.mons@[m as int]) == mon_settings_ok(o.mons@[m as int]),
            !stack ==> self.mons@[m as int].stack == o.mons@[m as int].stack,
            stack ==> self.mons@[m as int].clients == o.mons@[m as int].clients,
            chained(self.clients@, if stack { self.mons@[m as int].stack } else { self.mons@[m as int].clients }, nl, stack),
            forall|x: usize| nl.contains(x) ==> (if stack { o.sl(m) } else { o.cl(m) }).contains(x),
        ensures
            self.wf(),
    {
        assert(mons_chained(self.mons@, self.mons_head, self.ml@)) by {
            assert forall|k: int| 0 <= k < self.ml@.len() implies self.mons@[#[trigger] self.ml@[k] as int].next == next_in(self.ml@, k)
                && self.mons@[self.ml@[k] as int].alive by {
                assert(o.mons@[o.ml@[k] as int].next == next_in(o.ml@, k));
            }
        }
        assert forall|k: int| 0 <= k < self.ml@.len() implies self.mon_ok(#[trigger] self.ml@[k]) by {
            let mm = self.ml@[k];
            assert(o.mon_ok(mm));
            let other = if stack { o.cl(mm) } else { o.sl(mm) };
            let other_head = if stack { self.mons@[mm as int].clients } else { self.mons@[mm as int].stack };
            assert forall|j: int| 0 <= j < other.len() implies link(self.clients@[#[trigger] other[j] as int], !stack)
                == link(o.clients@[other[j] as int], !stack) by {}
            lemma_chained_frame(o.clients@, self.clients@, other_head, other, !stack);
            if mm == m {
                assert forall|j: int| 0 <= j < nl.len() implies self.clients@[#[trigger] nl[j] as int].mon == m
                    && self.clients@[nl[j] as int].alive by {
                    assert(nl.contains(nl[j]));
                }
            } else {
                let mine = if stack { o.sl(mm) } else { o.cl(mm) };
                let my_head = if stack { self.mons@[mm as int].stack } else { self.mons@[mm as int].clients };
                assert forall|j: int| 0 <= j < mine.len() implies link(self.clients@[#[trigger] mine[j] as int], stack)
                    == link(o.clients@[mine[j] as int], stack) by {
                    assert(o.clients@[mine[j] as int].mon == mm);
                }
                lemma_chained_frame(o.clients@, self.clients@, my_head, mine, stack);
            }
        }
    }
}

} // verus!
