//! The bar: where its parts go, and what a click on it hits.

use vstd::prelude::*;
use crate::wm::config::TAGS_LEN;
use crate::wm::model::{Client, Monitor, Wm, small, chained};

verus! {

/// What a button press landed on.
#[derive(Clone, Copy, Debug, PartialEq, Eq, Structural)]
pub enum Click {
    TagBar,
    LtSymbol,
    StatusText,
    WinTitle,
    ClientWin,
    RootWin,
}

/// The tags that clients `l` of `cs` use, and those of the urgent ones.
pub open spec fn marks(cs: Seq<Client>, l: Seq<usize>) -> (u32, u32)
    decreases l.len(),
{
    if l.len() == 0 {
        (0u32, 0u32)
    } else {
        let (occ, urg) = marks(cs, l.drop_last());
        let c = cs[l.last() as int];
        (occ | c.tags, if c.isurgent { urg | c.tags } else { urg })
    }
}

/// The sum of the first `k` widths.
pub open spec fn prefix(w: Seq<i32>, k: int) -> int
    decreases k,
{
    if k <= 0 { 0 } else { prefix(w, k - 1) + w[k - 1] as int }
}

/// Widths that are not negative and `small` each.
pub open spec fn widths_ok(w: Seq<i32>) -> bool {
    forall|i: int| 0 <= i < w.len() ==> 0 <= #[trigger] w[i] && small(w[i] as int)
}

/// Sums of `small` widths stay within `k` of them.
proof fn lemma_prefix_bound(w: Seq<i32>, k: int)
    requires
        widths_ok(w),
        0 <= k <= w.len(),
    ensures
        0 <= prefix(w, k) <= k * 0x1000000,
    decreases k,
{
    if k > 0 {
        lemma_prefix_bound(w, k - 1);
    }
}

/// One tag's cell on the bar: where it is, whether the tag shows (and so
/// takes the selected colours), whether an urgent client has it, whether
/// the selected client (on the selected monitor) has it, and whether any
/// client has it.
#[derive(Clone, Copy, Debug)]
pub struct TagCell {
    pub x: i32,
    pub w: i32,
    pub shown: bool,
    pub urgent: bool,
    pub filled: bool,
    pub occupied: bool,
}

/// The parts of a monitor's bar, from the left: the tag cells, the layout
/// symbol, then the title area and, on the selected monitor, the status
/// text at the right end. The title area is drawn only when wider than
/// the bar is high.
pub struct BarPlan {
    pub tags: Vec<TagCell>,
    pub lt_x: i32,
    pub lt_w: i32,
    /// The status text's place, on the selected monitor.
    pub status: Option<(i32, i32)>,
    /// The title area's place, when it is drawn.
    pub title: Option<(i32, i32)>,
    /// The square before the title, for a floating selected client:
    /// filled (`true`) when it is maximised, else empty (`false`).
    pub square: Option<bool>,
}

/// Client `c` is maximised on monitor `mn`: its geometry is the
/// monitor's.
pub open spec fn maximised(c: Client, mn: Monitor) -> bool {
    c.x == mn.mx && c.y == mn.my && c.w == mn.mw && c.h == mn.mh
}

/// The square before the title of a bar whose title area is `title` and
/// whose monitor's selected client is `sel`.
pub open spec fn title_square(cs: Seq<Client>, mn: Monitor, title: Option<(i32, i32)>) -> Option<bool> {
    match (title, mn.sel) {
        (Some(_), Some(c)) => if cs[c as int].isfloating { Some(maximised(cs[c as int], mn)) } else { None },
        _ => None,
    }
}

/// The selected client `sel`, if any, has tag `i`.
pub open spec fn sel_has(cs: Seq<Client>, sel: Option<usize>, i: int) -> bool {
    match sel {
        Some(c) => cs[c as int].tags & (1u32 << i as u32) != 0,
        None => false,
    }
}

/// Where the status text goes on a bar `ww` wide whose layout symbol ends
/// at `after_lt`: right-aligned, but never over the symbol.
pub open spec fn status_cell(ww: int, after_lt: int, stext_w: int) -> (int, int) {
    if ww - stext_w < after_lt { (after_lt, ww - after_lt) } else { (ww - stext_w, stext_w) }
}

impl Wm {
    /// The tags used by monitor `m`'s clients, and those of the urgent
    /// ones.
    pub fn tag_marks(&self, m: usize) -> (r: (u32, u32))
        requires
            self.wf(),
            self.is_mon(m),
        ensures
            r == marks(self.clients@, self.cl(m)),
    {
        let cl = self.client_list(m);
        let ghost l = self.cl(m);
        proof {
            let k = choose|k: int| 0 <= k < self.ml@.len() && self.ml@[k] == m;
            assert(self.mon_ok(self.ml@[k]));
        }
        let mut occ: u32 = 0;
        let mut urg: u32 = 0;
        let mut i: usize = 0;
        while i < cl.len()
            invariant
                cl@ == l,
                l == self.cl(m),
                chained(self.clients@, self.mons@[m as int].clients, l, false),
                i <= l.len(),
                (occ, urg) == marks(self.clients@, l.take(i as int)),
            decreases l.len() - i,
        {
            let c = cl[i];
            assert(l.take(i + 1).drop_last() =~= l.take(i as int));
            let cli = &self.clients[c];
            occ = occ | cli.tags;
            if cli.isurgent {
                urg = urg | cli.tags;
            }
            i += 1;
        }
        assert(l.take(l.len() as int) =~= l);
        (occ, urg)
    }

    /// Lays out monitor `m`'s bar from the measured widths of the tag
    /// names, the layout symbol and the status text, and remembers the
    /// symbol's width for clicks.
    pub fn bar_plan(&mut self, m: usize, tag_w: &Vec<i32>, lt_w: i32, stext_w: i32) -> (p: BarPlan)
        requires
            old(self).inv(),
            old(self).sane(),
            old(self).is_mon(m),
            tag_w@.len() == TAGS_LEN,
            widths_ok(tag_w@),
            0 <= lt_w && small(lt_w as int),
            0 <= stext_w && small(stext_w as int),
        ensures
            *final(self) == (Wm { blw: lt_w, ..*old(self) }),
            ({
                let mn = old(self).mons@[m as int];
                let (occ, urg) = marks(old(self).clients@, old(self).cl(m));
                let sel = old(self).selmon == Some(m);
                let shown = mn.tagset[mn.seltags as int];
                let after_lt = prefix(tag_w@, TAGS_LEN as int) + lt_w;
                let right = if sel { status_cell(mn.ww as int, after_lt, stext_w as int).0 } else { mn.ww as int };
                &&& p.tags@.len() == TAGS_LEN
                &&& forall|i: int| 0 <= i < TAGS_LEN ==> {
                    let t = #[trigger] p.tags@[i];
                    &&& t.x == prefix(tag_w@, i) && t.w == tag_w@[i]
                    &&& t.shown == (shown & (1u32 << i as u32) != 0)
                    &&& t.urgent == (urg & (1u32 << i as u32) != 0)
                    &&& t.occupied == (occ & (1u32 << i as u32) != 0)
                    &&& t.filled == (sel && sel_has(old(self).clients@, mn.sel, i))
                }
                &&& p.lt_x == prefix(tag_w@, TAGS_LEN as int) && p.lt_w == lt_w
                &&& p.status == (if sel { let s = status_cell(mn.ww as int, after_lt, stext_w as int);
                    Some((s.0 as i32, s.1 as i32)) } else { None })
                &&& p.title == (if right - after_lt > old(self).bh { Some((after_lt as i32, (right - after_lt) as i32)) } else { None })
                &&& p.square == title_square(old(self).clients@, mn, p.title)
            }),
    {
        let ghost o = *self;
        proof {
            let k = choose|k: int| 0 <= k < self.ml@.len() && self.ml@[k] == m;
            assert(self.mon_ok(self.ml@[k]));
            assert(self.mons@[self.ml@[k] as int].sane());
            lemma_prefix_bound(tag_w@, TAGS_LEN as int);
        }
        let (occ, urg) = self.tag_marks(m);
        let sel = self.selmon == Some(m);
        let shown = self.mons[m].tagset[self.mons[m].seltags];
        let sel_tags: u32 = match self.mons[m].sel {
            Some(c) => {
                proof {
                    let k = choose|k: int| 0 <= k < self.ml@.len() && self.ml@[k] == m;
                    assert(self.mon_ok(self.ml@[k]));
                    assert(self.mon_consistent(self.ml@[k]));
                    assert(self.cl(m).contains(c));
                }
                if sel { self.clients[c].tags } else { 0 }
            }
            None => 0,
        };
        let mut tags: Vec<TagCell> = Vec::new();
        let mut x: i32 = 0;
        let mut i: usize = 0;
        while i < TAGS_LEN
            invariant
                tag_w@.len() == TAGS_LEN,
                widths_ok(tag_w@),
                i <= TAGS_LEN,
                x == prefix(tag_w@, i as int),
                tags@.len() == i,
                forall|j: int| 0 <= j < i ==> {
                    let t = #[trigger] tags@[j];
                    &&& t.x == prefix(tag_w@, j) && t.w == tag_w@[j]
                    &&& t.shown == (shown & (1u32 << j as u32) != 0)
                    &&& t.urgent == (urg & (1u32 << j as u32) != 0)
                    &&& t.occupied == (occ & (1u32 << j as u32) != 0)
                    &&& t.filled == (sel_tags & (1u32 << j as u32) != 0)
                },
            decreases TAGS_LEN - i,
        {
            proof {
                lemma_prefix_bound(tag_w@, i + 1);
            }
            let bit: u32 = 1u32 << (i as u32);
            tags.push(TagCell {
                x,
                w: tag_w[i],
                shown: shown & bit != 0,
                urgent: urg & bit != 0,
                filled: sel_tags & bit != 0,
                occupied: occ & bit != 0,
            });
            x = x + tag_w[i];
            i += 1;
        }
        let lt_x = x;
        self.blw = lt_w;
        let after_lt = x + lt_w;
        let ww = self.mons[m].ww;
        let (status, right) = if sel {
            if ww - stext_w < after_lt {
                (Some((after_lt, ww - after_lt)), after_lt)
            } else {
                (Some((ww - stext_w, stext_w)), ww - stext_w)
            }
        } else {
            (None, ww)
        };
        let title = if right - after_lt > self.bh { Some((after_lt, right - after_lt)) } else { None };
        let square = match (title, self.mons[m].sel) {
            (Some(_), Some(c)) => {
                proof {
                    let k = choose|k: int| 0 <= k < self.ml@.len() && self.ml@[k] == m;
                    assert(self.mon_ok(self.ml@[k]));
                    assert(self.mon_consistent(self.ml@[k]));
                    assert(self.cl(m).contains(c));
                }
                let cl = &self.clients[c];
                let mn = &self.mons[m];
                if cl.isfloating {
                    Some(cl.x == mn.mx && cl.y == mn.my && cl.w == mn.mw && cl.h == mn.mh)
                } else {
                    None
                }
            }
            _ => None,
        };
        proof {
            assert forall|j: int| 0 <= j < TAGS_LEN implies (#[trigger] tags@[j]).filled == (o.selmon == Some(m)
                && sel_has(o.clients@, o.mons@[m as int].sel, j)) by {
                if !(o.selmon == Some(m) && o.mons@[m as int].sel is Some) {
                    assert forall|b: u32| #[trigger] (0u32 & b) == 0 by {
                        assert(0u32 & b == 0) by (bit_vector);
                    }
                }
            }
        }
        BarPlan { tags, lt_x, lt_w, status, title, square }
    }
}

/// The right edge of tag cell `i`.
pub open spec fn edge(tag_w: Seq<i32>, i: int) -> int {
    prefix(tag_w, i + 1)
}

/// What a click at `x` on the selected monitor's bar hits, and for a tag
/// cell the tag: the cell of the first tag whose right edge is past `x`;
/// else the layout symbol, if `x` is left of its right edge; else the
/// status text, if `x` is past the monitor's right edge less the text's
/// width; else the title.
pub open spec fn bar_hit(tag_w: Seq<i32>, blw: int, stext_w: int, wx: int, ww: int, x: int) -> (Click, u32) {
    if exists|i: int| 0 <= i < TAGS_LEN && x < #[trigger] edge(tag_w, i) {
        let i = choose|i: int| 0 <= i < TAGS_LEN && x < edge(tag_w, i)
            && forall|j: int| 0 <= j < i ==> x >= #[trigger] edge(tag_w, j);
        (Click::TagBar, 1u32 << i as u32)
    } else if x < prefix(tag_w, TAGS_LEN as int) + blw {
        (Click::LtSymbol, 0u32)
    } else if x > wx + ww - stext_w {
        (Click::StatusText, 0u32)
    } else {
        (Click::WinTitle, 0u32)
    }
}

/// Classifies a click at `x` on the selected monitor's bar (see
/// `bar_hit`).
pub fn bar_click(tag_w: &Vec<i32>, blw: i32, stext_w: i32, wx: i32, ww: i32, x: i32) -> (r: (Click, u32))
    requires
        tag_w@.len() == TAGS_LEN,
        widths_ok(tag_w@),
        small(blw as int) && small(stext_w as int) && small(wx as int) && small(ww as int),
    ensures
        r == bar_hit(tag_w@, blw as int, stext_w as int, wx as int, ww as int, x as int),
{
    let mut acc: i32 = 0;
    let mut i: usize = 0;
    while i < TAGS_LEN
        invariant
            tag_w@.len() == TAGS_LEN,
            widths_ok(tag_w@),
            i <= TAGS_LEN,
            acc == prefix(tag_w@, i as int),
            forall|j: int| 0 <= j < i ==> x >= #[trigger] edge(tag_w@, j),
        decreases TAGS_LEN - i,
    {
        proof {
            lemma_prefix_bound(tag_w@, i + 1);
        }
        acc = acc + tag_w[i];
        if x < acc {
            proof {
                let k = i as int;
                assert(0 <= k < TAGS_LEN && x < edge(tag_w@, k));
                let c = choose|c: int| 0 <= c < TAGS_LEN && x < edge(tag_w@, c)
                    && forall|j: int| 0 <= j < c ==> x >= #[trigger] edge(tag_w@, j);
                assert(c == k) by {
                    if c < k {
                        assert(x >= edge(tag_w@, c));
                    } else if c > k {
                        assert(x >= edge(tag_w@, k));
                    }
                }
            }
            return (Click::TagBar, 1u32 << (i as u32));
        }
        i += 1;
    }
    proof {
        lemma_prefix_bound(tag_w@, TAGS_LEN as int);
        assert forall|c: int| 0 <= c < TAGS_LEN implies !(x < #[trigger] edge(tag_w@, c)) by {}
    }
    if x < acc + blw {
        (Click::LtSymbol, 0)
    } else if x > wx + ww - stext_w {
        (Click::StatusText, 0)
    } else {
        (Click::WinTitle, 0)
    }
}

} // verus!
