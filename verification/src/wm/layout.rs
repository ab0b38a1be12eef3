//! The tiled and monocle layouts.

use vstd::prelude::*;
use crate::menu::state::div_trunc;
use crate::wm::model::{Aspect, Client, Monitor, Wm, small, visible, isvisible, distinct, height_of, chained, mon_settings_ok};
use crate::wm::lists::first_tiled;
use crate::wm::geometry::{lemma_resize_bounds, aspect_ok, resize_result, moved};

verus! {

/// The tiled clients of `l` from position `i` on: those not floating that
/// show on `mn`, in order.
pub open spec fn tiled_from(cs: Seq<Client>, mn: Monitor, l: Seq<usize>, i: int) -> Seq<usize>
    decreases l.len() - i,
{
    if i < 0 || i >= l.len() {
        Seq::empty()
    } else if !cs[l[i] as int].isfloating && visible(cs[l[i] as int], mn) {
        seq![l[i]] + tiled_from(cs, mn, l, i + 1)
    } else {
        tiled_from(cs, mn, l, i + 1)
    }
}

/// The tiled clients of monitor `m`, in tiling order.
pub open spec fn tiled(w: Wm, m: usize) -> Seq<usize> {
    tiled_from(w.clients@, w.mons@[m as int], w.cl(m), 0)
}

/// `first_tiled` is the head of `tiled_from`.
pub proof fn lemma_tiled_head(cs: Seq<Client>, mn: Monitor, l: Seq<usize>, i: int)
    requires
        0 <= i,
    ensures
        first_tiled(cs, mn, l, i) is None ==> tiled_from(cs, mn, l, i).len() == 0,
        first_tiled(cs, mn, l, i) matches Some(x) ==> exists|j: int| i <= j < l.len() && l[j] == x
            && tiled_from(cs, mn, l, i) == seq![x] + tiled_from(cs, mn, l, j + 1),
    decreases l.len() - i,
{
    if i < l.len() {
        if !(!cs[l[i] as int].isfloating && visible(cs[l[i] as int], mn)) {
            lemma_tiled_head(cs, mn, l, i + 1);
        }
    }
}

/// The elements of `tiled_from` are elements of the list, in order, from
/// position `i` on.
pub proof fn lemma_tiled_sub(cs: Seq<Client>, mn: Monitor, l: Seq<usize>, i: int)
    requires
        0 <= i,
        distinct(l),
    ensures
        distinct(tiled_from(cs, mn, l, i)),
        forall|k: int| 0 <= k < tiled_from(cs, mn, l, i).len() ==> exists|j: int| i <= j < l.len()
            && l[j] == #[trigger] tiled_from(cs, mn, l, i)[k],
        forall|k: int| 0 <= k < tiled_from(cs, mn, l, i).len() ==>
            !cs[tiled_from(cs, mn, l, i)[k] as int].isfloating && visible(cs[tiled_from(cs, mn, l, i)[k] as int], mn),
    decreases l.len() - i,
{
    if i < l.len() {
        lemma_tiled_sub(cs, mn, l, i + 1);
        let t = tiled_from(cs, mn, l, i);
        let t1 = tiled_from(cs, mn, l, i + 1);
        if !cs[l[i] as int].isfloating && visible(cs[l[i] as int], mn) {
            assert(t == seq![l[i]] + t1);
            assert forall|k: int| 0 <= k < t.len() implies exists|j: int| i <= j < l.len() && l[j] == #[trigger] t[k] by {
                if k == 0 {
                    assert(l[i] == t[0]);
                } else {
                    assert(t[k] == t1[k - 1]);
                    let j = choose|j: int| i + 1 <= j < l.len() && l[j] == t1[k - 1];
                    assert(l[j] == t[k]);
                }
            }
            assert forall|a: int, b: int| 0 <= a < b < t.len() implies t[a] != t[b] by {
                assert(t[b] == t1[b - 1]);
                if a == 0 {
                    let j = choose|j: int| i + 1 <= j < l.len() && l[j] == t1[b - 1];
                    assert(l[j] != l[i]);
                } else {
                    assert(t[a] == t1[a - 1]);
                }
            }
            assert forall|k: int| 0 <= k < t.len() implies
                !cs[t[k] as int].isfloating && visible(cs[t[k] as int], mn) by {
                if k > 0 {
                    assert(t[k] == t1[k - 1]);
                }
            }
        } else {
            assert(t == t1);
            assert forall|k: int| 0 <= k < t.len() implies exists|j: int| i <= j < l.len() && l[j] == #[trigger] t[k] by {
                let j = choose|j: int| i + 1 <= j < l.len() && l[j] == t1[k];
                assert(l[j] == t[k]);
            }
        }
    }
}

/// The master-area width step answers widths within the `small` range.
pub open spec fn master_ok<M: Fn(u32, i32) -> i32>(mwf: &M) -> bool {
    &&& forall|f: u32, ww: i32| mwf.requires((f, ww))
    &&& forall|f: u32, ww: i32, r: i32| mwf.ensures((f, ww), r) ==> small(r as int)
}

/// The stack-area cell height for `cnt` tiled clients: the window area's
/// height shared among the `cnt - 1` stacked ones, or the whole height when
/// a share would be lower than the bar.
pub open spec fn stack_cell(mn: Monitor, bh: int, cnt: int) -> int {
    let he = div_trunc(mn.wh as int, cnt - 1);
    if he < bh { mn.wh as int } else { he }
}

/// The x of the stack area: right of the master window if it sticks out
/// past the master width `mw`, else at `mw`.
pub open spec fn stack_x(mn: Monitor, f: Client, mw: int) -> int {
    if mn.wx + mw > f.x + f.w { f.x + f.w + 2 * f.bw } else { mn.wx + mw }
}

/// The width of the stack area.
pub open spec fn stack_w(mn: Monitor, f: Client, mw: int) -> int {
    if mn.wx + mw > f.x + f.w { mn.wx + mn.ww - stack_x(mn, f, mw) } else { mn.ww - mw }
}

/// The y requested for the `k`-th tiled client (`k` >= 1): the window
/// area's top for the first stacked one, or when the cells take the whole
/// height; else just below the previous client as it was placed.
pub open spec fn stack_y(mn: Monitor, cell: int, prev: Client, k: int) -> int {
    if k == 1 || cell == mn.wh { mn.wy as int } else { prev.y + prev.h + 2 * prev.bw }
}

/// The height requested for the `k`-th tiled client of `cnt`: what is left
/// of the window area for the last one, a cell for the others.
pub open spec fn stack_h(mn: Monitor, cell: int, c: Client, y: int, k: int, cnt: int) -> int {
    if k == cnt - 1 { mn.wy + mn.wh - y - 2 * c.bw } else { cell - 2 * c.bw }
}

/// Client `t[k]` (`k` >= 1) was placed as the tile layout places the
/// stacked clients, given the clients `cs` as they are after the layout.
#[verifier::opaque]
pub open spec fn stacked_ok<A: Fn(Aspect, i32, i32) -> (i32, i32)>(aspect: &A, o: Wm, cs: Seq<Client>, m: usize,
    t: Seq<usize>, mw: int, k: int) -> bool
{
    let mn = o.mons@[m as int];
    let f = cs[t[0] as int];
    let cell = stack_cell(mn, o.bh as int, t.len() as int);
    let c = o.clients@[t[k] as int];
    let y = stack_y(mn, cell, cs[t[k - 1] as int], k);
    resize_result(aspect, c, mn, o.sw as int, o.sh as int, o.bh as int, stack_x(mn, f, mw), y,
        stack_w(mn, f, mw) - 2 * c.bw, stack_h(mn, cell, c, y, k, t.len() as int), false, cs[t[k] as int])
}

/// The master client `t[0]` was placed as the tile layout places it: the
/// whole window area when alone, else the master width `mw`.
#[verifier::opaque]
pub open spec fn master_placed<A: Fn(Aspect, i32, i32) -> (i32, i32)>(aspect: &A, o: Wm, cs: Seq<Client>, m: usize,
    t: Seq<usize>, mw: int) -> bool
{
    let mn = o.mons@[m as int];
    let c = o.clients@[t[0] as int];
    resize_result(aspect, c, mn, o.sw as int, o.sh as int, o.bh as int, mn.wx as int, mn.wy as int,
        (if t.len() == 1 { mn.ww as int } else { mw }) - 2 * c.bw, mn.wh - 2 * c.bw, false, cs[t[0] as int])
}

/// The clients `cs` are the clients of `o` with the tiled clients `t` of
/// monitor `m` placed by the tile layout with master width `mw`.
pub open spec fn tile_placed<A: Fn(Aspect, i32, i32) -> (i32, i32)>(aspect: &A, o: Wm, cs: Seq<Client>, m: usize,
    t: Seq<usize>, mw: int) -> bool
{
    &&& cs.len() == o.clients@.len()
    &&& forall|i: int| 0 <= i < cs.len() && !t.contains(i as usize) ==> cs[i] == o.clients@[i]
    &&& t.len() > 0 ==> master_placed(aspect, o, cs, m, t, mw)
    &&& forall|k: int| 1 <= k < t.len() ==> stacked_ok(aspect, o, cs, m, t, mw, k)
}

/// A placed client's y and height, and the y below it, stay in the range
/// the stack arithmetic needs.
pub open spec fn y_in_range(mn: Monitor, y: int) -> bool {
    mn.my - 0x9000000 <= y <= mn.my + mn.mh + 0xa000000
}

/// Integer division by a positive number does not grow the magnitude.
pub proof fn lemma_div_trunc_bound(a: int, b: int)
    requires
        b >= 1,
    ensures
        a >= 0 ==> 0 <= div_trunc(a, b) <= a,
        a < 0 ==> a <= div_trunc(a, b) <= 0,
{
    if a >= 0 {
        assert(0 <= a / b <= a) by (nonlinear_arith)
            requires a >= 0, b >= 1;
    } else {
        assert(0 <= (-a) / b <= -a) by (nonlinear_arith)
            requires -a > 0, b >= 1;
    }
}


/// The clients `cs` equal `o` but for the first `upto` clients of `t`.
#[verifier::opaque]
pub open spec fn frame(cs: Seq<Client>, o: Seq<Client>, t: Seq<usize>, upto: int) -> bool {
    &&& cs.len() == o.len()
    &&& forall|q: int| 0 <= q < cs.len() && (forall|p: int| 0 <= p < upto ==> t[p] != q as usize)
        ==> #[trigger] cs[q] == o[q]
}

/// Changing client `t[k]` extends the frame by one.
pub proof fn lemma_frame_step(cs: Seq<Client>, o: Seq<Client>, t: Seq<usize>, k: int, v: Client)
    requires
        frame(cs, o, t, k),
        0 <= k < t.len(),
        (t[k] as int) < cs.len(),
    ensures
        frame(cs.update(t[k] as int, v), o, t, k + 1),
{
    reveal(frame);
    let cs2 = cs.update(t[k] as int, v);
    assert forall|q: int| 0 <= q < cs2.len() && (forall|p: int| 0 <= p < k + 1 ==> t[p] != q as usize)
        implies #[trigger] cs2[q] == o[q] by {
        assert(t[k] != q as usize);
        assert(cs2[q] == cs[q]);
    }
}

/// A client outside the first `upto` of `t` is unchanged.
pub proof fn lemma_frame_get(cs: Seq<Client>, o: Seq<Client>, t: Seq<usize>, upto: int, q: int)
    requires
        frame(cs, o, t, upto),
        0 <= q < cs.len(),
        forall|p: int| 0 <= p < upto ==> t[p] != q as usize,
    ensures
        cs[q] == o[q],
        cs.len() == o.len(),
{
    reveal(frame);
}

/// Changing a client other than those the facts speak of keeps the facts
/// about the master and the `kk`-th stacked client.
pub proof fn lemma_placed_keep<A: Fn(Aspect, i32, i32) -> (i32, i32)>(aspect: &A, o: Wm, cs: Seq<Client>, m: usize,
    t: Seq<usize>, mw: int, kk: int, c: usize, v: Client)
    requires
        distinct(t),
        0 <= kk < t.len(),
        forall|p: int| 0 <= p <= kk ==> t[p] != c,
        (c as int) < cs.len(),
        forall|p: int| 0 <= p < t.len() ==> (t[p] as int) < cs.len(),
    ensures
        kk == 0 ==> (master_placed(aspect, o, cs, m, t, mw) ==> master_placed(aspect, o, cs.update(c as int, v), m, t, mw)),
        kk >= 1 ==> (stacked_ok(aspect, o, cs, m, t, mw, kk) ==> stacked_ok(aspect, o, cs.update(c as int, v), m, t, mw, kk)),
{
    reveal(master_placed);
    reveal(stacked_ok);
    let cs2 = cs.update(c as int, v);
    assert(cs2[t[0] as int] == cs[t[0] as int]);
    assert(cs2[t[kk] as int] == cs[t[kk] as int]);
    if kk >= 1 {
        assert(cs2[t[kk - 1] as int] == cs[t[kk - 1] as int]);
    }
}

/// One step of the stack loop: placing client `t[k]` keeps what the loop
/// has established and adds the fact about `t[k]`.
pub proof fn lemma_stack_step<A: Fn(Aspect, i32, i32) -> (i32, i32)>(aspect: &A, o: Wm, before: Seq<Client>, v: Client,
    m: usize, t: Seq<usize>, mw: int, k: int, x: int, w: int, y: int, h: int, cell: int, flags: Seq<bool>)
    requires
        1 <= k < t.len(),
        distinct(t),
        before.len() == o.clients@.len(),
        forall|q: int| 0 <= q < t.len() ==> (t[q] as int) < o.clients@.len(),
        master_placed(aspect, o, before, m, t, mw),
        forall|kk: int| 1 <= kk < k ==> stacked_ok(aspect, o, before, m, t, mw, kk),
        frame(before, o.clients@, t, k),
        cell == stack_cell(o.mons@[m as int], o.bh as int, t.len() as int),
        x == stack_x(o.mons@[m as int], before[t[0] as int], mw),
        w == stack_w(o.mons@[m as int], before[t[0] as int], mw),
        y == stack_y(o.mons@[m as int], cell, before[t[k - 1] as int], k),
        h == stack_h(o.mons@[m as int], cell, o.clients@[t[k] as int], y, k, t.len() as int),
        resize_result(aspect, before[t[k] as int], o.mons@[m as int], o.sw as int, o.sh as int, o.bh as int,
            x, y, w - 2 * before[t[k] as int].bw, h, false, v),
        before[t[k] as int] == o.clients@[t[k] as int],
        flags.len() == k + 1,
        forall|q: int| 0 <= q < k ==> flags[q] == (before[t[q] as int] != o.clients@[t[q] as int]),
        flags[k] == (v != before[t[k] as int]),
    ensures
        ({
            let cs = before.update(t[k] as int, v);
            &&& master_placed(aspect, o, cs, m, t, mw)
            &&& forall|kk: int| 1 <= kk <= k ==> stacked_ok(aspect, o, cs, m, t, mw, kk)
            &&& frame(cs, o.clients@, t, k + 1)
            &&& cs[t[0] as int] == before[t[0] as int]
            &&& forall|q: int| 0 <= q <= k ==> flags[q] == (cs[t[q] as int] != o.clients@[t[q] as int])
        }),
{
    let c = t[k];
    let cs = before.update(c as int, v);
    assert forall|p: int| 0 <= p < k implies t[p] != c by {
        assert(t[p] != t[k]);
    }
    lemma_frame_step(before, o.clients@, t, k, v);
    lemma_placed_keep(aspect, o, before, m, t, mw, 0, c, v);
    assert forall|kk: int| 1 <= kk <= k implies stacked_ok(aspect, o, cs, m, t, mw, kk) by {
        if kk < k {
            lemma_placed_keep(aspect, o, before, m, t, mw, kk, c, v);
        } else {
            reveal(stacked_ok);
            assert(cs[t[0] as int] == before[t[0] as int]);
            assert(cs[t[k - 1] as int] == before[t[k - 1] as int]);
        }
    }
    assert forall|q: int| 0 <= q <= k implies flags[q] == (cs[t[q] as int] != o.clients@[t[q] as int]) by {
        if q < k {
            assert(t[q] != c);
        }
    }
}

/// The decimal digits of `n`.
pub open spec fn decimal(n: nat) -> Seq<u8>
    decreases n,
{
    if n < 10 {
        seq![(48 + n) as u8]
    } else {
        decimal(n / 10).push((48 + n % 10) as u8)
    }
}

/// The number of clients of `l`, from position `i` on, that show on `mn`.
pub open spec fn count_visible(cs: Seq<Client>, mn: Monitor, l: Seq<usize>, i: int) -> nat
    decreases l.len() - i,
{
    if i < 0 || i >= l.len() {
        0
    } else if visible(cs[l[i] as int], mn) {
        1 + count_visible(cs, mn, l, i + 1)
    } else {
        count_visible(cs, mn, l, i + 1)
    }
}

/// The monocle layout's symbol for `n` visible clients: "[n]".
pub open spec fn monocle_symbol(n: nat) -> Seq<u8> {
    seq![91u8] + decimal(n) + seq![93u8]
}

/// Client `t[k]` was placed as the monocle layout places every tiled
/// client: over the whole window area.
#[verifier::opaque]
pub open spec fn monocle_ok<A: Fn(Aspect, i32, i32) -> (i32, i32)>(aspect: &A, o: Wm, cs: Seq<Client>, m: usize,
    t: Seq<usize>, k: int) -> bool
{
    let mn = o.mons@[m as int];
    let c = o.clients@[t[k] as int];
    resize_result(aspect, c, mn, o.sw as int, o.sh as int, o.bh as int, mn.wx as int, mn.wy as int,
        mn.ww - 2 * c.bw, mn.wh - 2 * c.bw, false, cs[t[k] as int])
}

/// The decimal digits of `n`.
pub fn fmt_decimal(n: u32) -> (s: Vec<u8>)
    ensures
        s@ == decimal(n as nat),
    decreases n,
{
    if n < 10 {
        let mut s: Vec<u8> = Vec::new();
        s.push((48 + n) as u8);
        assert(s@ =~= decimal(n as nat));
        s
    } else {
        let mut s = fmt_decimal(n / 10);
        s.push((48 + n % 10) as u8);
        assert(s@ =~= decimal(n as nat));
        s
    }
}

/// One step of the monocle loop.
pub proof fn lemma_monocle_step<A: Fn(Aspect, i32, i32) -> (i32, i32)>(aspect: &A, o: Wm, before: Seq<Client>, v: Client,
    m: usize, t: Seq<usize>, k: int, flags: Seq<bool>)
    requires
        0 <= k < t.len(),
        distinct(t),
        before.len() == o.clients@.len(),
        forall|q: int| 0 <= q < t.len() ==> (t[q] as int) < o.clients@.len(),
        forall|kk: int| 0 <= kk < k ==> monocle_ok(aspect, o, before, m, t, kk),
        frame(before, o.clients@, t, k),
        before[t[k] as int] == o.clients@[t[k] as int],
        ({
            let mn = o.mons@[m as int];
            let c = o.clients@[t[k] as int];
            resize_result(aspect, c, mn, o.sw as int, o.sh as int, o.bh as int, mn.wx as int, mn.wy as int,
                mn.ww - 2 * c.bw, mn.wh - 2 * c.bw, false, v)
        }),
        flags.len() == k + 1,
        forall|q: int| 0 <= q < k ==> flags[q] == (before[t[q] as int] != o.clients@[t[q] as int]),
        flags[k] == (v != before[t[k] as int]),
    ensures
        ({
            let cs = before.update(t[k] as int, v);
            &&& forall|kk: int| 0 <= kk <= k ==> monocle_ok(aspect, o, cs, m, t, kk)
            &&& frame(cs, o.clients@, t, k + 1)
            &&& forall|q: int| 0 <= q <= k ==> flags[q] == (cs[t[q] as int] != o.clients@[t[q] as int])
        }),
{
    let c = t[k];
    let cs = before.update(c as int, v);
    lemma_frame_step(before, o.clients@, t, k, v);
    assert forall|kk: int| 0 <= kk <= k implies monocle_ok(aspect, o, cs, m, t, kk) by {
        if kk < k {
            assert(monocle_ok(aspect, o, before, m, t, kk));
            reveal(monocle_ok);
            assert(t[kk] != t[k]);
            assert(cs[t[kk] as int] == before[t[kk] as int]);
        } else {
            reveal(monocle_ok);
        }
    }
    assert forall|q: int| 0 <= q <= k implies flags[q] == (cs[t[q] as int] != o.clients@[t[q] as int]) by {
        if q < k {
            assert(t[q] != t[k]);
        }
    }
}

/// The clients of `l`, from position `i` on, that show on `mn` (or, with
/// `!shown`, that do not), in order.
pub open spec fn pick(cs: Seq<Client>, mn: Monitor, l: Seq<usize>, i: int, shown: bool) -> Seq<usize>
    decreases l.len() - i,
{
    if i < 0 || i >= l.len() {
        Seq::empty()
    } else if visible(cs[l[i] as int], mn) == shown {
        seq![l[i]] + pick(cs, mn, l, i + 1, shown)
    } else {
        pick(cs, mn, l, i + 1, shown)
    }
}

/// Whether layout `lt` leaves client `c` where it is: every client when
/// the layout does not arrange, floating clients otherwise.
pub open spec fn keeps_place(c: Client, lt: usize) -> bool {
    !crate::wm::config::arranges(lt) || c.isfloating
}

/// Client `l[k]` is as showing it leaves it: a shown client that the
/// layout leaves in place is resized to its own geometry (so its size
/// hints apply); every other client is unchanged.
#[verifier::opaque]
pub open spec fn shown_ok<A: Fn(Aspect, i32, i32) -> (i32, i32)>(aspect: &A, o: Wm, cs: Seq<Client>, m: usize,
    l: Seq<usize>, k: int) -> bool
{
    let mn = o.mons@[m as int];
    let c = o.clients@[l[k] as int];
    if visible(c, mn) && keeps_place(c, mn.lt[mn.sellt as int]) {
        resize_result(aspect, c, mn, o.sw as int, o.sh as int, o.bh as int, c.x as int, c.y as int,
            c.w as int, c.h as int, false, cs[l[k] as int])
    } else {
        cs[l[k] as int] == c
    }
}

impl Wm {
    /// The tiled clients of monitor `m`, found with `nexttiled`.
    #[verifier::rlimit(100)]
    #[verifier::spinoff_prover]
    pub fn tiled_clients(&self, m: usize) -> (v: Vec<usize>)
        requires
            self.wf(),
            self.is_mon(m),
        ensures
            v@ == tiled(*self, m),
    {
        proof {
            let k = choose|k: int| 0 <= k < self.ml@.len() && self.ml@[k] == m;
            assert(self.mon_ok(self.ml@[k]));
        }
        let ghost l = self.cl(m);
        let ghost cs = self.clients@;
        let ghost mn = self.mons@[m as int];
        let mut v: Vec<usize> = Vec::new();
        let mut c = self.nexttiled(self.mons[m].clients, m, Ghost(0));
        let ghost mut j: int = 0;
        while c.is_some()
            invariant
                (m as int) < self.mons@.len(),
                mn.seltags < 2,
                chained(cs, self.mons@[m as int].clients, l, false),
                l == self.cl(m),
                cs == self.clients@,
                mn == self.mons@[m as int],
                0 <= j <= l.len(),
                c == first_tiled(cs, mn, l, j),
                v@ + tiled_from(cs, mn, l, j) == tiled_from(cs, mn, l, 0),
            decreases l.len() - j,
        {
            let ci = c.unwrap();
            proof {
                lemma_tiled_head(cs, mn, l, j);
            }
            let ghost jj = choose|jj: int| j <= jj < l.len() && l[jj] == ci
                && tiled_from(cs, mn, l, j) == seq![ci] + tiled_from(cs, mn, l, jj + 1);
            proof {
                assert(crate::wm::model::link(cs[l[jj] as int], false) == crate::links::next_in(l, jj));
            }
            v.push(ci);
            c = self.nexttiled(self.clients[ci].next, m, Ghost(jj + 1));
            proof {
                assert(v@ + tiled_from(cs, mn, l, jj + 1) =~= tiled_from(cs, mn, l, 0)) by {
                    assert(v@ =~= v@.drop_last().push(ci));
                    assert(v@.drop_last() + (seq![ci] + tiled_from(cs, mn, l, jj + 1)) == tiled_from(cs, mn, l, 0));
                }
                j = jj + 1;
            }
        }
        proof {
            lemma_tiled_head(cs, mn, l, j);
            assert(v@ =~= tiled_from(cs, mn, l, 0));
        }
        v
    }


    /// The tile layout on monitor `m`: the first tiled client takes the
    /// master area (`mwf` computes its width from the monitor's master
    /// factor and window width), the others share the stack area beside it
    /// top to bottom. Returns the tiled clients and, for each, whether its
    /// geometry changed.
    #[verifier::rlimit(100)]
    #[verifier::spinoff_prover]
    pub fn tile<A: Fn(Aspect, i32, i32) -> (i32, i32), M: Fn(u32, i32) -> i32>(&mut self, m: usize, aspect: &A,
        mwf: &M) -> (r: (Vec<usize>, Vec<bool>))
        requires
            old(self).wf(),
            old(self).is_mon(m),
            old(self).sane(),
            old(self).clients@.len() <= i32::MAX,
            aspect_ok(aspect),
            master_ok(mwf),
        ensures
            final(self).wf(),
            old(self).consistent() ==> final(self).consistent(),
            *final(self) == (Wm { clients: final(self).clients, ..*old(self) }),
            r.0@ == tiled(*old(self), m),
            r.1@.len() == r.0@.len(),
            forall|q: int| 0 <= q < r.1@.len() ==> r.1@[q] == (final(self).clients@[r.0@[q] as int] != old(self).clients@[r.0@[q] as int]),
            r.0@.len() == 0 ==> final(self).clients@ == old(self).clients@,
            r.0@.len() > 0 ==> exists|mw: i32| mwf.ensures((old(self).mons@[m as int].mfact, old(self).mons@[m as int].ww), mw)
                && tile_placed(aspect, *old(self), final(self).clients@, m, r.0@, mw as int),
            final(self).sane(),
    {
        let ghost o = *self;
        let t = self.tiled_clients(m);
        let ghost tt = t@;
        let n = t.len();
        let mut flags: Vec<bool> = Vec::new();
        proof {
            let k = choose|k: int| 0 <= k < o.ml@.len() && o.ml@[k] == m;
            assert(o.mon_ok(o.ml@[k]));
            assert(o.mons@[o.ml@[k] as int].sane());
            lemma_tiled_sub(o.clients@, o.mons@[m as int], o.cl(m), 0);
            assert forall|q: int| 0 <= q < tt.len() implies (tt[q] as int) < o.clients@.len()
                && o.clients@[tt[q] as int].sane() && o.clients@[tt[q] as int].mon == m by {
                let j = choose|j: int| 0 <= j < o.cl(m).len() && o.cl(m)[j] == tt[q];
                assert(o.clients@[o.cl(m)[j] as int].alive);
            }
            crate::wm::lists::lemma_distinct_bound(tt, o.clients@.len() as int);
            reveal(frame);
        }
        if n == 0 {
            return (t, flags);
        }
        let ghost mn = o.mons@[m as int];
        let wx = self.mons[m].wx;
        let wy = self.mons[m].wy;
        let ww = self.mons[m].ww;
        let wh = self.mons[m].wh;
        let mfact = self.mons[m].mfact;
        let mw = mwf(mfact, ww);
        let first = t[0];
        let bw = self.clients[first].bw;
        let mw_eff = if n == 1 { ww } else { mw };
        let ch = self.resize(first, wx, wy, mw_eff - 2 * bw, wh - 2 * bw, false, aspect);
        flags.push(ch);
        proof {
            lemma_resize_bounds(aspect, o.clients@[first as int], mn, o.sw as int, o.sh as int, o.bh as int,
                wx as int, wy as int, (mw_eff - 2 * bw) as int, (wh - 2 * bw) as int, self.clients@[first as int]);
            reveal(master_placed);
            assert(self.clients@ == o.clients@.update(first as int, self.clients@[first as int]));
            lemma_frame_step(o.clients@, o.clients@, tt, 0, self.clients@[first as int]);
        }
        if n == 1 {
            proof {
                assert forall|q: int| 0 <= q < self.clients@.len() && !tt.contains(q as usize)
                    implies self.clients@[q] == o.clients@[q] by {
                    lemma_frame_get(self.clients@, o.clients@, tt, 1, q);
                }
                assert(tile_placed(aspect, o, self.clients@, m, tt, mw as int));
                assert(flags@[0] == (self.clients@[tt[0] as int] != o.clients@[tt[0] as int]));
            }
            return (t, flags);
        }
        let first_x = self.clients[first].x;
        let first_w = self.clients[first].w;
        let x = if wx + mw > first_x + first_w { first_x + first_w + 2 * bw } else { wx + mw };
        let w = if wx + mw > first_x + first_w { wx + ww - x } else { ww - mw };
        let stack_n = n - 1;
        let he0 = wh / (stack_n as i32);
        let h_each = if he0 < self.bh { wh } else { he0 };
        proof {
            assert(he0 == div_trunc(wh as int, (n - 1) as int));
        }
        self.tile_stack(m, &t, x, w, h_each, Ghost(mw as int), Ghost(o), &mut flags, aspect);
        proof {
            assert forall|q: int| 0 <= q < self.clients@.len() && !tt.contains(q as usize)
                implies self.clients@[q] == o.clients@[q] by {
                lemma_frame_get(self.clients@, o.clients@, tt, tt.len() as int, q);
            }
        }
        (t, flags)
    }

    /// The stack part of the tile layout: clients `t[1..]` placed at `x`,
    /// `w` wide, in cells of height `h_each`.
    #[verifier::rlimit(100)]
    #[verifier::spinoff_prover]
    fn tile_stack<A: Fn(Aspect, i32, i32) -> (i32, i32)>(&mut self, m: usize, t: &Vec<usize>, x: i32, w: i32,
        h_each: i32, Ghost(mw): Ghost<int>, Ghost(o): Ghost<Wm>, flags: &mut Vec<bool>, aspect: &A)
        requires
            old(self).wf(),
            o.is_mon(m),
            o.consistent() ==> old(self).consistent(),
            aspect_ok(aspect),
            *old(self) == (Wm { clients: old(self).clients, ..o }),
            t@ == tiled(o, m),
            t@.len() >= 2,
            distinct(t@),
            forall|q: int| 0 <= q < t@.len() ==> (t@[q] as int) < o.clients@.len()
                && o.clients@[t@[q] as int].sane() && o.clients@[t@[q] as int].mon == m,
            o.mons@[m as int].sane(),
            small(o.sw as int) && small(o.sh as int) && small(o.bh as int),
            small(mw),
            h_each == stack_cell(o.mons@[m as int], o.bh as int, t@.len() as int),
            x == stack_x(o.mons@[m as int], old(self).clients@[t@[0] as int], mw),
            w == stack_w(o.mons@[m as int], old(self).clients@[t@[0] as int], mw),
            -0x8000001 <= x <= 0x4000000,
            w <= 0xb000000,
            master_placed(aspect, o, old(self).clients@, m, t@, mw),
            frame(old(self).clients@, o.clients@, t@, 1),
            old(flags)@.len() == 1,
            old(flags)@[0] == (old(self).clients@[t@[0] as int] != o.clients@[t@[0] as int]),
            old(self).sane(),
        ensures
            final(self).sane(),
            final(self).wf(),
            o.consistent() ==> final(self).consistent(),
            *final(self) == (Wm { clients: final(self).clients, ..o }),
            tile_placed(aspect, o, final(self).clients@, m, t@, mw),
            frame(final(self).clients@, o.clients@, t@, t@.len() as int),
            final(flags)@.len() == t@.len(),
            forall|q: int| 0 <= q < t@.len() ==> final(flags)@[q] == (final(self).clients@[t@[q] as int] != o.clients@[t@[q] as int]),
    {
        let ghost mn = o.mons@[m as int];
        let ghost tt = t@;
        let n = t.len();
        let stack_n = n - 1;
        assert((m as int) < o.mons@.len()) by {
            let k = choose|k: int| 0 <= k < o.ml@.len() && o.ml@[k] == m;
        }
        proof {
            lemma_div_trunc_bound(mn.wh as int, (n - 1) as int);
        }
        let wy = self.mons[m].wy;
        let wh = self.mons[m].wh;
        let mut y = wy;
        let mut i: usize = 0;
        proof {
            reveal(frame);
            assert(self.clients@[tt[0] as int] == self.clients@[tt[0] as int]);
        }
        while i < stack_n
            invariant
                self.wf(),
                o.consistent() ==> self.consistent(),
                aspect_ok(aspect),
                *self == (Wm { clients: self.clients, ..o }),
                self.clients@.len() == o.clients@.len(),
                t@ == tt,
                n == tt.len(),
                stack_n == n - 1,
                n >= 2,
                distinct(tt),
                forall|q: int| 0 <= q < tt.len() ==> (tt[q] as int) < o.clients@.len()
                    && o.clients@[tt[q] as int].sane() && o.clients@[tt[q] as int].mon == m,
                mn == o.mons@[m as int],
                (m as int) < o.mons@.len(),
                mn.sane(),
                small(o.sw as int) && small(o.sh as int) && small(o.bh as int),
                wy == mn.wy && wh == mn.wh,
                h_each == stack_cell(mn, o.bh as int, n as int),
                x == stack_x(mn, self.clients@[tt[0] as int], mw),
                w == stack_w(mn, self.clients@[tt[0] as int], mw),
                -0x8000001 <= x <= 0x4000000,
                w <= 0xb000000,
                i <= stack_n,
                master_placed(aspect, o, self.clients@, m, tt, mw),
                forall|k: int| 1 <= k <= i ==> stacked_ok(aspect, o, self.clients@, m, tt, mw, k),
                frame(self.clients@, o.clients@, tt, (i + 1) as int),
                y == stack_y(mn, h_each as int, self.clients@[tt[i as int] as int], (i + 1) as int),
                i < stack_n ==> crate::wm::layout::y_in_range(mn, y as int),
                -0x1000000 <= h_each <= 0x1000000,
                flags@.len() == i + 1,
                forall|q: int| 0 <= q <= i ==> flags@[q] == (self.clients@[tt[q] as int] != o.clients@[tt[q] as int]),
                self.sane(),
            decreases stack_n - i,
        {
            let ci = t[i + 1];
            let ghost k = (i + 1) as int;
            let ghost before = self.clients@;
            proof {
                assert forall|p: int| 0 <= p < k implies tt[p] != ci by {
                    assert(tt[p] != tt[k]);
                }
                lemma_frame_get(before, o.clients@, tt, k, ci as int);
            }
            let cbw = self.clients[ci].bw;
            let h = if i + 1 == stack_n { wy + wh - y - 2 * cbw } else { h_each - 2 * cbw };
            let ch = self.resize(ci, x, y, w - 2 * cbw, h, false, aspect);
            flags.push(ch);
            proof {
                lemma_resize_bounds(aspect, o.clients@[ci as int], mn, o.sw as int, o.sh as int, o.bh as int,
                    x as int, y as int, (w - 2 * cbw) as int, h as int, self.clients@[ci as int]);
                assert(self.clients@ == before.update(ci as int, self.clients@[ci as int]));
                lemma_stack_step(aspect, o, before, self.clients@[ci as int], m, tt, mw, k, x as int, w as int,
                    y as int, h as int, h_each as int, flags@);
            }
            if h_each != wh {
                y = self.clients[ci].y + height_of(&self.clients[ci]);
            }
            i += 1;
        }
    }

    /// The number of clients of monitor `m` that show on it.
    pub fn count_visible_on(&self, m: usize) -> (n: u32)
        requires
            self.wf(),
            self.is_mon(m),
            self.clients@.len() <= u32::MAX,
        ensures
            n == count_visible(self.clients@, self.mons@[m as int], self.cl(m), 0),
    {
        let cs = self.client_list(m);
        proof {
            let k = choose|k: int| 0 <= k < self.ml@.len() && self.ml@[k] == m;
            assert(self.mon_ok(self.ml@[k]));
            crate::wm::lists::lemma_distinct_bound(cs@, self.clients@.len() as int);
        }
        let ghost l = cs@;
        let ghost mn = self.mons@[m as int];
        let mut n: u32 = 0;
        let mut j: usize = cs.len();
        while j > 0
            invariant
                cs@ == l,
                l == self.cl(m),
                mn == self.mons@[m as int],
                mn.seltags < 2,
                (m as int) < self.mons@.len(),
                forall|q: int| 0 <= q < l.len() ==> (l[q] as int) < self.clients@.len(),
                l.len() <= u32::MAX,
                j <= l.len(),
                n == count_visible(self.clients@, mn, l, j as int),
                n <= l.len() - j,
            decreases j,
        {
            j -= 1;
            if isvisible(&self.clients[cs[j]], &self.mons[m]) {
                n += 1;
            }
        }
        n
    }

    /// The monocle layout on monitor `m`: its symbol shows the number of
    /// visible clients, if any (else it is "[M]"), and every tiled client
    /// covers the window area. Returns the tiled clients and, for each, whether its geometry
    /// changed.
    #[verifier::rlimit(100)]
    #[verifier::spinoff_prover]
    pub fn monocle<A: Fn(Aspect, i32, i32) -> (i32, i32)>(&mut self, m: usize, aspect: &A) -> (r: (Vec<usize>, Vec<bool>))
        requires
            old(self).wf(),
            old(self).is_mon(m),
            old(self).sane(),
            old(self).clients@.len() <= u32::MAX,
            aspect_ok(aspect),
        ensures
            final(self).wf(),
            old(self).consistent() ==> final(self).consistent(),
            final(self).mons@ == old(self).mons@.update(m as int, Monitor {
                ltsymbol: final(self).mons@[m as int].ltsymbol, ..old(self).mons@[m as int] }),
            ({
                let n = count_visible(old(self).clients@, old(self).mons@[m as int], old(self).cl(m), 0);
                final(self).mons@[m as int].ltsymbol@ == if n > 0 { monocle_symbol(n) } else { crate::wm::config::layout_symbol(crate::wm::config::LT_MONOCLE) }
            }),
            *final(self) == (Wm { clients: final(self).clients, mons: final(self).mons, ..*old(self) }),
            r.0@ == tiled(*old(self), m),
            r.1@.len() == r.0@.len(),
            forall|q: int| 0 <= q < r.1@.len() ==> r.1@[q] == (final(self).clients@[r.0@[q] as int] != old(self).clients@[r.0@[q] as int]),
            final(self).clients@.len() == old(self).clients@.len(),
            forall|q: int| 0 <= q < final(self).clients@.len() && !r.0@.contains(q as usize) ==> final(self).clients@[q] == old(self).clients@[q],
            forall|k: int| 0 <= k < r.0@.len() ==> monocle_ok(aspect, *old(self), final(self).clients@, m, r.0@, k),
            final(self).sane(),
    {
        let ghost o = *self;
        let n = self.count_visible_on(m);
        proof {
            let k = choose|k: int| 0 <= k < o.ml@.len() && o.ml@[k] == m;
            assert(o.mon_ok(o.ml@[k]));
            assert(o.mons@[o.ml@[k] as int].sane());
        }
        let t = self.tiled_clients(m);
        let ghost tt = t@;
        let mut flags: Vec<bool> = Vec::new();
        proof {
            lemma_tiled_sub(o.clients@, o.mons@[m as int], o.cl(m), 0);
            assert forall|q: int| 0 <= q < tt.len() implies (tt[q] as int) < o.clients@.len()
                && o.clients@[tt[q] as int].sane() && o.clients@[tt[q] as int].mon == m by {
                let j = choose|j: int| 0 <= j < o.cl(m).len() && o.cl(m)[j] == tt[q];
                assert(o.clients@[o.cl(m)[j] as int].alive);
            }
            reveal(frame);
        }
        let wx = self.mons[m].wx;
        let wy = self.mons[m].wy;
        let ww = self.mons[m].ww;
        let wh = self.mons[m].wh;
        let mut i: usize = 0;
        while i < t.len()
            invariant
                self.wf(),
                o.consistent() ==> self.consistent(),
                aspect_ok(aspect),
                *self == (Wm { clients: self.clients, ..o }),
                self.clients@.len() == o.clients@.len(),
                (m as int) < o.mons@.len(),
                t@ == tt,
                distinct(tt),
                forall|q: int| 0 <= q < tt.len() ==> (tt[q] as int) < o.clients@.len()
                    && o.clients@[tt[q] as int].sane() && o.clients@[tt[q] as int].mon == m,
                o.mons@[m as int].sane(),
                small(o.sw as int) && small(o.sh as int) && small(o.bh as int),
                wx == o.mons@[m as int].wx && wy == o.mons@[m as int].wy,
                ww == o.mons@[m as int].ww && wh == o.mons@[m as int].wh,
                i <= tt.len(),
                forall|k: int| 0 <= k < i ==> monocle_ok(aspect, o, self.clients@, m, tt, k),
                frame(self.clients@, o.clients@, tt, i as int),
                flags@.len() == i,
                forall|q: int| 0 <= q < i ==> flags@[q] == (self.clients@[tt[q] as int] != o.clients@[tt[q] as int]),
                self.sane(),
            decreases tt.len() - i,
        {
            let ci = t[i];
            let ghost before = self.clients@;
            proof {
                assert forall|p: int| 0 <= p < i implies tt[p] != ci by {
                    assert(tt[p] != tt[i as int]);
                }
                lemma_frame_get(before, o.clients@, tt, i as int, ci as int);
            }
            let bw = self.clients[ci].bw;
            let ch = self.resize(ci, wx, wy, ww - 2 * bw, wh - 2 * bw, false, aspect);
            flags.push(ch);
            proof {
                assert(self.clients@ == before.update(ci as int, self.clients@[ci as int]));
                lemma_monocle_step(aspect, o, before, self.clients@[ci as int], m, tt, i as int, flags@);
            }
            i += 1;
        }
        proof {
            assert forall|q: int| 0 <= q < self.clients@.len() && !tt.contains(q as usize)
                implies self.clients@[q] == o.clients@[q] by {
                lemma_frame_get(self.clients@, o.clients@, tt, tt.len() as int, q);
            }
        }
        let ghost o3 = *self;
        {
            let sym = if n > 0 {
                let mut sym: Vec<u8> = Vec::new();
                sym.push(91u8);
                let mut digits = fmt_decimal(n);
                sym.append(&mut digits);
                sym.push(93u8);
                assert(sym@ =~= monocle_symbol(n as nat));
                sym
            } else {
                crate::wm::config::symbol_of(crate::wm::config::LT_MONOCLE)
            };
            self.mons[m].ltsymbol = sym;
            proof {
                assert forall|kk: int| 0 <= kk < o3.ml@.len() implies mon_settings_ok(#[trigger] self.mons@[o3.ml@[kk] as int]) by {
                    assert(o3.mon_ok(o3.ml@[kk]));
                }
                self.lemma_mon_fields(o3);
            }
        }
        (t, flags)
    }

    /// Shows and hides monitor `m`'s clients, in focus order: returns the
    /// clients that show (to be moved to their place) and those that do not
    /// (to be moved off the screen, last first), and resizes every shown
    /// client that the layout leaves in place to its own geometry.
    #[verifier::rlimit(100)]
    #[verifier::spinoff_prover]
    pub fn showhide<A: Fn(Aspect, i32, i32) -> (i32, i32)>(&mut self, m: usize, aspect: &A) -> (r: (Vec<usize>, Vec<usize>))
        requires
            old(self).wf(),
            old(self).is_mon(m),
            old(self).sane(),
            aspect_ok(aspect),
        ensures
            final(self).wf(),
            old(self).consistent() ==> final(self).consistent(),
            *final(self) == (Wm { clients: final(self).clients, ..*old(self) }),
            r.0@ == pick(old(self).clients@, old(self).mons@[m as int], old(self).sl(m), 0, true),
            r.1@ == pick(old(self).clients@, old(self).mons@[m as int], old(self).sl(m), 0, false).reverse(),
            final(self).clients@.len() == old(self).clients@.len(),
            forall|q: int| 0 <= q < final(self).clients@.len() && !old(self).sl(m).contains(q as usize)
                ==> final(self).clients@[q] == old(self).clients@[q],
            forall|k: int| 0 <= k < old(self).sl(m).len() ==> shown_ok(aspect, *old(self), final(self).clients@, m, old(self).sl(m), k),
            final(self).sane(),
    {
        let ghost o = *self;
        proof {
            self.lemma_is_mon_sane(m);
        }
        let st = self.stack_list(m);
        let ghost l = st@;
        let ghost mn = o.mons@[m as int];
        let lt = self.mons[m].lt[self.mons[m].sellt];
        let arr = crate::wm::config::has_arrange(lt);
        let mut shown: Vec<usize> = Vec::new();
        let mut hidden: Vec<usize> = Vec::new();
        proof {
            reveal(frame);
            assert forall|q: int| 0 <= q < l.len() implies (l[q] as int) < o.clients@.len()
                && o.clients@[l[q] as int].sane() by {
                assert(o.clients@[l[q] as int].alive);
            }
        }
        let mut i: usize = 0;
        while i < st.len()
            invariant
                self.wf(),
                o.consistent() ==> self.consistent(),
                aspect_ok(aspect),
                *self == (Wm { clients: self.clients, ..o }),
                self.clients@.len() == o.clients@.len(),
                (m as int) < o.mons@.len(),
                st@ == l,
                l == o.sl(m),
                mn == o.mons@[m as int],
                mn.seltags < 2 && mn.sellt < 2,
                lt == mn.lt[mn.sellt as int],
                arr == crate::wm::config::arranges(lt),
                distinct(l),
                forall|q: int| 0 <= q < l.len() ==> (l[q] as int) < o.clients@.len()
                    && o.clients@[l[q] as int].sane() && o.clients@[l[q] as int].mon == m,
                mn.sane(),
                small(o.sw as int) && small(o.sh as int) && small(o.bh as int),
                i <= l.len(),
                forall|k: int| 0 <= k < i ==> shown_ok(aspect, o, self.clients@, m, l, k),
                frame(self.clients@, o.clients@, l, i as int),
                shown@ + pick(o.clients@, mn, l, i as int, true) == pick(o.clients@, mn, l, 0, true),
                pick(o.clients@, mn, l, i as int, false).reverse() + hidden@ == pick(o.clients@, mn, l, 0, false).reverse(),
                self.sane(),
            decreases l.len() - i,
        {
            let ci = st[i];
            let ghost before = self.clients@;
            proof {
                assert forall|p: int| 0 <= p < i implies l[p] != ci by {
                    assert(l[p] != l[i as int]);
                }
                lemma_frame_get(before, o.clients@, l, i as int, ci as int);
            }
            if isvisible(&self.clients[ci], &self.mons[m]) {
                shown.push(ci);
                if !arr || self.clients[ci].isfloating {
                    let cx = self.clients[ci].x;
                    let cy = self.clients[ci].y;
                    let cw = self.clients[ci].w;
                    let chh = self.clients[ci].h;
                    self.resize(ci, cx, cy, cw, chh, false, aspect);
                }
            } else {
                hidden.insert(0, ci);
            }
            proof {
                assert(self.clients@ == before.update(ci as int, self.clients@[ci as int]));
                lemma_frame_step(before, o.clients@, l, i as int, self.clients@[ci as int]);
                assert forall|k: int| 0 <= k <= i implies shown_ok(aspect, o, self.clients@, m, l, k) by {
                    if k < i {
                        assert(shown_ok(aspect, o, before, m, l, k));
                        reveal(shown_ok);
                        assert(l[k] != ci);
                        assert(self.clients@[l[k] as int] == before[l[k] as int]);
                    } else {
                        reveal(shown_ok);
                    }
                }
                let pt = pick(o.clients@, mn, l, i as int, true);
                let pf = pick(o.clients@, mn, l, i as int, false);
                if visible(o.clients@[ci as int], mn) {
                    assert(pt == seq![ci] + pick(o.clients@, mn, l, i + 1, true));
                    assert(shown@ + pick(o.clients@, mn, l, i + 1, true) =~= pick(o.clients@, mn, l, 0, true)) by {
                        assert(shown@ =~= shown@.drop_last().push(ci));
                    }
                    assert(pf == pick(o.clients@, mn, l, i + 1, false));
                } else {
                    assert(pf == seq![ci] + pick(o.clients@, mn, l, i + 1, false));
                    assert(pf.reverse() =~= pick(o.clients@, mn, l, i + 1, false).reverse().push(ci));
                    assert(pick(o.clients@, mn, l, i + 1, false).reverse() + hidden@ =~= pf.reverse() + hidden@.subrange(1, hidden@.len() as int));
                    assert(pt == pick(o.clients@, mn, l, i + 1, true));
                }
            }
            i += 1;
        }
        proof {
            assert(shown@ =~= pick(o.clients@, mn, l, 0, true));
            assert(hidden@ =~= pick(o.clients@, mn, l, 0, false).reverse());
            assert forall|q: int| 0 <= q < self.clients@.len() && !l.contains(q as usize)
                implies self.clients@[q] == o.clients@[q] by {
                lemma_frame_get(self.clients@, o.clients@, l, l.len() as int, q);
            }
        }
        (shown, hidden)
    }

    /// A live monitor of a sane manager: in range, its settings in range,
    /// sane, and its clients sane.
    pub proof fn lemma_is_mon_sane(&self, m: usize)
        requires
            self.wf(),
            self.sane(),
            self.is_mon(m),
        ensures
            (m as int) < self.mons@.len(),
            self.mon_ok(m),
            mon_settings_ok(self.mons@[m as int]),
            self.mons@[m as int].sane(),
            forall|q: int| 0 <= q < self.sl(m).len() ==> (self.sl(m)[q] as int) < self.clients@.len()
                && self.clients@[self.sl(m)[q] as int].sane() && self.clients@[self.sl(m)[q] as int].mon == m,
            forall|q: int| 0 <= q < self.cl(m).len() ==> (self.cl(m)[q] as int) < self.clients@.len()
                && self.clients@[self.cl(m)[q] as int].sane() && self.clients@[self.cl(m)[q] as int].mon == m,
    {
        let k = choose|k: int| 0 <= k < self.ml@.len() && self.ml@[k] == m;
        assert(self.mon_ok(self.ml@[k]));
        assert(self.mons@[self.ml@[k] as int].sane());
        assert forall|q: int| 0 <= q < self.sl(m).len() implies (self.sl(m)[q] as int) < self.clients@.len()
            && self.clients@[self.sl(m)[q] as int].sane() && self.clients@[self.sl(m)[q] as int].mon == m by {
            assert(self.clients@[self.sl(m)[q] as int].alive);
        }
        assert forall|q: int| 0 <= q < self.cl(m).len() implies (self.cl(m)[q] as int) < self.clients@.len()
            && self.clients@[self.cl(m)[q] as int].sane() && self.clients@[self.cl(m)[q] as int].mon == m by {
            assert(self.clients@[self.cl(m)[q] as int].alive);
        }
    }
}

} // verus!
