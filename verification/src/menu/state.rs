//! The menu's state: its items, the doubly linked match list, the input
//! line and the geometry that paging depends on.

use vstd::prelude::*;
use crate::menu::matching::Item;
pub use crate::links::{next_in, prev_in, first_of, last_of, in_list};

verus! {

/// The `left` and `right` links of the items named by `l` chain exactly
/// the elements of `l`, in order; `l` names distinct, existing items.
pub open spec fn linked(items: Seq<Item>, l: Seq<usize>) -> bool {
    &&& forall|k: int| 0 <= k < l.len() ==> (#[trigger] l[k] as int) < items.len()
    &&& forall|a: int, b: int| 0 <= a < b < l.len() ==> l[a] != l[b]
    &&& forall|k: int| 0 <= k < l.len() ==> items[#[trigger] l[k] as int].right == next_in(l, k)
    &&& forall|k: int| 0 <= k < l.len() ==> items[#[trigger] l[k] as int].left == prev_in(l, k)
}

/// The space item `idx` takes on a page of width `bound`: the bar height
/// when items are listed vertically, else its text width, at most `bound`.
pub open spec fn step_w(lines: i32, bh: i32, widths: Seq<i32>, bound: int, idx: usize) -> int {
    if lines > 0 {
        bh as int
    } else if (widths[idx as int] as int) < bound {
        widths[idx as int] as int
    } else {
        bound
    }
}

/// Walking right from position `q` of `l` with `acc` already used: the
/// first item that no longer fits on the page, if any.
pub open spec fn walk_next(lines: i32, bh: i32, widths: Seq<i32>, bound: int, l: Seq<usize>, q: int, acc: int) -> Option<usize>
    decreases l.len() - q,
{
    if q < 0 || q >= l.len() {
        None
    } else if acc + step_w(lines, bh, widths, bound, l[q]) > bound {
        Some(l[q])
    } else {
        walk_next(lines, bh, widths, bound, l, q + 1, acc + step_w(lines, bh, widths, bound, l[q]))
    }
}

/// Walking left from position `q` of `l` with `acc` already used: the
/// position where the previous page starts.
pub open spec fn walk_prev(lines: i32, bh: i32, widths: Seq<i32>, bound: int, l: Seq<usize>, q: int, acc: int) -> int
    decreases q,
{
    if q <= 0 {
        q
    } else if acc + step_w(lines, bh, widths, bound, l[q - 1]) > bound {
        q
    } else {
        walk_prev(lines, bh, widths, bound, l, q - 1, acc + step_w(lines, bh, widths, bound, l[q - 1]))
    }
}

/// Integer division rounding toward zero, as Rust's `/` does.
pub open spec fn div_trunc(a: int, b: int) -> int {
    if a >= 0 { a / b } else { -((-a) / b) }
}

/// A byte string short enough for the cursor arithmetic.
pub open spec fn text_len_ok(s: Seq<u8>) -> bool {
    s.len() + 2 <= isize::MAX
}

/// The menu's logical state.
pub struct Menu {
    /// Number of vertical lines (0: one horizontal bar).
    pub lines: i32,
    pub case_insensitive: bool,
    /// Menu width and height, bar height, input field width, prompt width.
    pub mw: i32,
    pub mh: i32,
    pub bh: i32,
    pub inputw: i32,
    pub promptw: i32,
    /// Text widths of "<" and ">".
    pub lt_w: i32,
    pub gt_w: i32,
    pub items: Vec<Item>,
    /// Text width of each item.
    pub item_w: Vec<i32>,
    pub matches: Option<usize>,
    pub matchend: Option<usize>,
    pub prev: Option<usize>,
    pub curr: Option<usize>,
    pub next: Option<usize>,
    pub sel: Option<usize>,
    /// The input line and the cursor's byte offset in it.
    pub text: Vec<u8>,
    pub cursor: usize,
    pub exit_code: Option<u8>,
    /// The current match list, in order.
    pub match_list: Ghost<Seq<usize>>,
}

impl Menu {
    /// The texts of all items.
    pub open spec fn texts(&self) -> Seq<Seq<u8>> {
        self.items@.map_values(|it: Item| it.text@)
    }

    /// The menu's invariant.
    pub open spec fn wf(&self) -> bool {
        &&& self.wf_links()
        &&& in_list(self.prev, self.match_list@)
        &&& in_list(self.next, self.match_list@)
    }

    /// The invariant but for `prev` and `next`, which paging recomputes.
    pub open spec fn wf_links(&self) -> bool {
        &&& self.item_w@.len() == self.items@.len()
        &&& linked(self.items@, self.match_list@)
        &&& self.match_list@.len() <= self.items@.len()
        &&& self.matches == first_of(self.match_list@)
        &&& self.matchend == last_of(self.match_list@)
        &&& in_list(self.curr, self.match_list@)
        &&& in_list(self.sel, self.match_list@)
        &&& self.cursor <= self.text@.len()
        &&& text_len_ok(self.text@)
        &&& forall|i: int| 0 <= i < self.items@.len() ==> text_len_ok(#[trigger] self.items@[i].text@)
    }

    /// The width available to items on one page.
    pub open spec fn page_bound(&self) -> int {
        if self.lines > 0 {
            self.lines * self.bh
        } else {
            self.mw - (self.promptw + self.inputw + self.lt_w + self.gt_w)
        }
    }

    /// The position of `x` in the match list.
    pub open spec fn pos_of(&self, x: usize) -> int {
        choose|p: int| 0 <= p < self.match_list@.len() && self.match_list@[p] == x
    }

    /// `next` and `prev` bound the page that starts at `curr`.
    pub open spec fn offsets_ok(&self) -> bool {
        match self.curr {
            None => self.next is None && self.prev is None,
            Some(c) => {
                &&& self.next == walk_next(self.lines, self.bh, self.item_w@, self.page_bound(),
                    self.match_list@, self.pos_of(c), 0)
                &&& self.prev == Some(self.match_list@[walk_prev(self.lines, self.bh, self.item_w@,
                    self.page_bound(), self.match_list@, self.pos_of(c), 0)])
            },
        }
    }
}

impl Menu {
    /// The static fields the key handler never changes.
    pub open spec fn same_setup(&self, m: Menu) -> bool {
        &&& self.lines == m.lines
        &&& self.case_insensitive == m.case_insensitive
        &&& self.mw == m.mw
        &&& self.mh == m.mh
        &&& self.bh == m.bh
        &&& self.inputw == m.inputw
        &&& self.promptw == m.promptw
        &&& self.lt_w == m.lt_w
        &&& self.gt_w == m.gt_w
        &&& self.item_w == m.item_w
    }

    /// An empty menu with `lines` lines (0 for one horizontal bar), bar
    /// height `bh`, and the text widths `lt_w`, `gt_w` of "<" and ">".
    pub fn new(lines: i32, case_insensitive: bool, bh: i32, lt_w: i32, gt_w: i32) -> (m: Menu)
        requires
            lines < i32::MAX,
            i32::MIN <= bh * ((if lines > 0 { lines as int } else { 0 }) + 1) <= i32::MAX,
        ensures
            m.wf(),
            m.lines == lines,
            m.case_insensitive == case_insensitive,
            m.bh == bh,
            m.mh == bh * ((if lines > 0 { lines as int } else { 0 }) + 1),
            m.mw == 0,
            m.inputw == 0,
            m.promptw == 0,
            m.lt_w == lt_w,
            m.gt_w == gt_w,
            m.items@.len() == 0,
            m.item_w@.len() == 0,
            m.match_list@.len() == 0,
            m.matches is None && m.matchend is None && m.prev is None,
            m.curr is None && m.next is None && m.sel is None,
            m.text@.len() == 0,
            m.cursor == 0,
            m.exit_code is None,
    {
        let l: i32 = if lines > 0 { lines } else { 0 };
        Menu {
            lines,
            case_insensitive,
            mw: 0,
            mh: bh * (l + 1),
            bh,
            inputw: 0,
            promptw: 0,
            lt_w,
            gt_w,
            items: Vec::new(),
            item_w: Vec::new(),
            matches: None,
            matchend: None,
            prev: None,
            curr: None,
            next: None,
            sel: None,
            text: Vec::new(),
            cursor: 0,
            exit_code: None,
            match_list: Ghost(Seq::empty()),
        }
    }

    /// Adds the lines read from standard input as items; `measures` are
    /// their drawn widths, `widths` their text widths. The input field
    /// becomes as wide as the widest line (at least 0).
    pub fn read_items(&mut self, lines: Vec<Vec<u8>>, measures: Vec<i32>, widths: Vec<i32>)
        requires
            old(self).wf(),
            lines@.len() == measures@.len(),
            lines@.len() == widths@.len(),
            forall|j: int| 0 <= j < lines@.len() ==> text_len_ok(#[trigger] lines@[j]@),
        ensures
            final(self).wf(),
            final(self).items@.len() == old(self).items@.len() + lines@.len(),
            forall|i: int| 0 <= i < old(self).items@.len() ==> #[trigger] final(self).items@[i] == old(self).items@[i],
            forall|j: int| 0 <= j < lines@.len() ==> {
                &&& (#[trigger] final(self).items@[old(self).items@.len() + j]).text@ == lines@[j]@
                &&& final(self).items@[old(self).items@.len() + j].left is None
                &&& final(self).items@[old(self).items@.len() + j].right is None
            },
            final(self).item_w@ == old(self).item_w@ + widths@,
            forall|j: int| 0 <= j < measures@.len() ==> final(self).inputw >= #[trigger] measures@[j],
            final(self).inputw >= 0,
            final(self).inputw == 0 || exists|j: int| 0 <= j < measures@.len() && final(self).inputw == measures@[j],
            *final(self) == (Menu { items: final(self).items, item_w: final(self).item_w,
                inputw: final(self).inputw, ..*old(self) }),
    {
        let ghost m0 = *self;
        let n = lines.len();
        let mut max_w: i32 = 0;
        let mut j: usize = 0;
        while j < n
            invariant
                n == lines@.len(),
                n == measures@.len(),
                n == widths@.len(),
                j <= n,
                forall|k: int| 0 <= k < lines@.len() ==> text_len_ok(#[trigger] lines@[k]@),
                m0.wf(),
                *self == (Menu { items: self.items, item_w: self.item_w, ..m0 }),
                self.items@.len() == m0.items@.len() + j,
                forall|i: int| 0 <= i < m0.items@.len() ==> #[trigger] self.items@[i] == m0.items@[i],
                forall|k: int| 0 <= k < j ==> {
                    &&& (#[trigger] self.items@[m0.items@.len() + k]).text@ == lines@[k]@
                    &&& self.items@[m0.items@.len() + k].left is None
                    &&& self.items@[m0.items@.len() + k].right is None
                },
                self.item_w@ == m0.item_w@ + widths@.take(j as int),
                max_w >= 0,
                forall|k: int| 0 <= k < j ==> max_w >= #[trigger] measures@[k],
                max_w == 0 || exists|k: int| 0 <= k < j && max_w == measures@[k],
            decreases n - j,
        {
            let w = measures[j];
            if w > max_w {
                max_w = w;
            }
            let t = lines[j].clone();
            assert(t@ =~= lines@[j as int]@);
            self.items.push(Item { text: t, left: None, right: None });
            self.item_w.push(widths[j]);
            assert(widths@.take(j + 1) =~= widths@.take(j as int).push(widths@[j as int]));
            j += 1;
        }
        assert(widths@.take(n as int) =~= widths@);
        self.inputw = max_w;
        proof {
            let l = self.match_list@;
            assert forall|k: int| 0 <= k < l.len() implies self.items@[#[trigger] l[k] as int] == m0.items@[l[k] as int] by {
            }
            assert(linked(self.items@, l));
            assert forall|i: int| 0 <= i < self.items@.len() implies text_len_ok(#[trigger] self.items@[i].text@) by {
                if i >= m0.items@.len() {
                    let k = i - m0.items@.len();
                    assert(self.items@[m0.items@.len() + k].text@ == lines@[k]@);
                }
            }
        }
    }

    /// Lays the bar out for a surface `layer_w` wide (0: a default of 800)
    /// and a prompt whose text width is `prompt_w`, if there is a prompt.
    pub fn recompute_geometry(&mut self, layer_w: u32, prompt_w: Option<i32>)
        requires
            old(self).wf(),
            old(self).lines < i32::MAX,
            i32::MIN <= old(self).bh * ((if old(self).lines > 0 { old(self).lines as int } else { 0 }) + 1) <= i32::MAX,
        ensures
            final(self).wf(),
            final(self).mw == (if layer_w == 0 { 800 } else { #[verifier::truncate] (layer_w as i32) }),
            final(self).promptw == (match prompt_w { Some(p) => p, None => 0 }),
            final(self).inputw == (if old(self).inputw < div_trunc(final(self).mw as int, 3) { old(self).inputw as int } else { div_trunc(final(self).mw as int, 3) }),
            final(self).mh == old(self).bh * ((if old(self).lines > 0 { old(self).lines as int } else { 0 }) + 1),
            *final(self) == (Menu { mw: final(self).mw, promptw: final(self).promptw,
                inputw: final(self).inputw, mh: final(self).mh, ..*old(self) }),
    {
        let mw: i32 = if layer_w == 0 { 800 } else { #[verifier::truncate] (layer_w as i32) };
        self.mw = mw;
        self.promptw = match prompt_w {
            Some(p) => p,
            None => 0,
        };
        let third = self.mw / 3;
        if third < self.inputw {
            self.inputw = third;
        }
        let l: i32 = if self.lines > 0 { self.lines } else { 0 };
        self.mh = self.bh * (l + 1);
    }
}

} // verus!
