//! What one frame of the menu shows: the rectangles and texts to paint,
//! in order, from the menu's state and the measured text widths.

use vstd::prelude::*;
use crate::menu::state::{Menu, walk_next, step_w, linked, next_in, div_trunc};
use crate::wm::model::small;

verus! {

/// The four colours of the menu.
#[derive(Clone, Copy, Debug, PartialEq, Eq, Structural)]
pub struct Palette {
    pub normbg: u32,
    pub normfg: u32,
    pub selbg: u32,
    pub selfg: u32,
}

/// Which text a text operation paints.
#[derive(Clone, Copy, Debug, PartialEq, Eq, Structural)]
pub enum Label {
    Prompt,
    Input,
    Item(usize),
    /// The "<" that says there is a page to the left.
    Left,
    /// The ">" that says there is a page to the right.
    Right,
}

/// One painting operation.
#[derive(Clone, Copy, Debug, PartialEq, Eq, Structural)]
pub enum DrawOp {
    Fill { x: i32, y: i32, w: i32, h: i32, color: u32 },
    Text { x: i32, y: i32, label: Label, color: u32 },
}

/// The items of `l` from position `q` up to, not including, `stop`.
pub open spec fn page_from(l: Seq<usize>, q: int, stop: Option<usize>) -> Seq<usize>
    decreases l.len() - q,
{
    if q < 0 || q >= l.len() || stop == Some(l[q]) {
        Seq::empty()
    } else {
        seq![l[q]] + page_from(l, q + 1, stop)
    }
}

/// The background and text colours of item `idx`: the selected ones for
/// the selected item.
pub open spec fn colors(sel: Option<usize>, idx: usize, pal: Palette) -> (u32, u32) {
    if sel == Some(idx) { (pal.selbg, pal.selfg) } else { (pal.normbg, pal.normfg) }
}

/// The operations for the first `k` rows of a vertical page: each row a
/// bar high, from `y0` down, filled with its background and its text at
/// `pad_x`.
pub open spec fn rows(page: Seq<usize>, k: int, y0: int, bh: int, w: int, pad_x: int, text_y: int,
    sel: Option<usize>, pal: Palette) -> Seq<DrawOp>
    decreases k,
{
    if k <= 0 {
        Seq::empty()
    } else {
        let idx = page[k - 1];
        let ry = y0 + (k - 1) * bh;
        let (bg, fg) = colors(sel, idx, pal);
        rows(page, k - 1, y0, bh, w, pad_x, text_y, sel, pal)
            + seq![DrawOp::Fill { x: 0, y: ry as i32, w: w as i32, h: bh as i32, color: bg },
                   DrawOp::Text { x: pad_x as i32, y: (ry + text_y) as i32, label: Label::Item(idx), color: fg }]
    }
}

/// The left edge of the `k`-th item of a horizontal page starting at
/// `x0`: each item takes its width, but never past the space left before
/// the ">".
pub open spec fn cell_x(page: Seq<usize>, widths: Seq<i32>, k: int, x0: int, mw: int, gt_w: int) -> int
    decreases k,
{
    if k <= 0 {
        x0
    } else {
        let x = cell_x(page, widths, k - 1, x0, mw, gt_w);
        x + cell_w(widths[page[k - 1] as int] as int, x, mw, gt_w)
    }
}

/// The width an item of text width `iw` gets at `x`.
pub open spec fn cell_w(iw: int, x: int, mw: int, gt_w: int) -> int {
    if iw < mw - x - gt_w { iw } else { mw - x - gt_w }
}

/// The operations for the first `k` items of a horizontal page.
pub open spec fn cells(page: Seq<usize>, widths: Seq<i32>, k: int, x0: int, mw: int, gt_w: int, bh: int,
    pad_x: int, text_y: int, sel: Option<usize>, pal: Palette) -> Seq<DrawOp>
    decreases k,
{
    if k <= 0 {
        Seq::empty()
    } else {
        let idx = page[k - 1];
        let x = cell_x(page, widths, k - 1, x0, mw, gt_w);
        let iw = cell_w(widths[idx as int] as int, x, mw, gt_w);
        let (bg, fg) = colors(sel, idx, pal);
        cells(page, widths, k - 1, x0, mw, gt_w, bh, pad_x, text_y, sel, pal)
            + seq![DrawOp::Fill { x: x as i32, y: 0, w: iw as i32, h: bh as i32, color: bg },
                   DrawOp::Text { x: (x + pad_x) as i32, y: text_y as i32, label: Label::Item(idx), color: fg }]
    }
}

/// Each item of `l` links right to the next one.
pub open spec fn links_ok(items: Seq<crate::menu::matching::Item>, l: Seq<usize>) -> bool {
    forall|j: int| 0 <= j < l.len() ==> (l[j] as int) < items.len()
        && (#[trigger] items[l[j] as int]).right == next_in(l, j)
}

/// The sizes the frame needs in range.
pub open spec fn frame_ok(m: Menu, font_h: int, cur_w: int) -> bool {
    &&& small(m.mw as int) && small(m.mh as int) && small(m.bh as int) && small(m.promptw as int)
    &&& small(m.inputw as int) && small(m.lt_w as int) && small(m.gt_w as int)
    &&& 0 <= m.bh && 0 <= m.lt_w && 0 <= m.gt_w
    &&& small(font_h) && small(cur_w)
    &&& small(m.lines * m.bh)
    &&& forall|i: int| 0 <= i < m.item_w@.len() ==> 0 <= #[trigger] m.item_w@[i] && small(m.item_w@[i] as int)
}

/// The frame of menu `m`, with a prompt when `has_prompt`, font height
/// `font_h` and the input text before the cursor `cur_w` wide: the
/// background; the prompt on the selected colours; the input text and,
/// when it fits in the input field, the cursor; then the page of matches
/// from `curr` up to `next`, as rows below the input line, or (on one
/// line, when there are matches) after the input field between a "<"
/// (when a page lies to the left) and a ">" (when one lies to the right).
pub open spec fn frame(m: Menu, has_prompt: bool, font_h: int, cur_w: int, pal: Palette) -> Seq<DrawOp> {
    frame_head(m, has_prompt, font_h, cur_w, pal) + frame_list(m, has_prompt, font_h, pal)
}

/// The background, the prompt, the input text and the cursor.
pub open spec fn frame_head(m: Menu, has_prompt: bool, font_h: int, cur_w: int, pal: Palette) -> Seq<DrawOp> {
    let w = if m.mw > 1 { m.mw as int } else { 1 };
    let h = if m.mh > 1 { m.mh as int } else { 1 };
    let pad_x = div_trunc(font_h, 2);
    let text_y = div_trunc(m.bh - font_h, 2);
    let x = if has_prompt { m.promptw as int } else { 0 };
    let input_w = if m.lines > 0 || m.matches is None { m.mw - x } else { m.inputw as int };
    let cx = x + pad_x + cur_w;
    seq![DrawOp::Fill { x: 0, y: 0, w: w as i32, h: h as i32, color: pal.normbg }]
        + (if has_prompt { seq![DrawOp::Fill { x: 0, y: 0, w: m.promptw, h: m.bh, color: pal.selbg },
            DrawOp::Text { x: pad_x as i32, y: text_y as i32, label: Label::Prompt, color: pal.selfg }] } else { Seq::empty() })
        + seq![DrawOp::Text { x: (x + pad_x) as i32, y: text_y as i32, label: Label::Input, color: pal.normfg }]
        + (if cx < x + input_w { seq![DrawOp::Fill { x: cx as i32, y: text_y as i32, w: 1, h: font_h as i32, color: pal.normfg }] }
           else { Seq::empty() })
}

/// The page of matches from `curr` up to `next`.
pub open spec fn frame_list(m: Menu, has_prompt: bool, font_h: int, pal: Palette) -> Seq<DrawOp> {
    let w = if m.mw > 1 { m.mw as int } else { 1 };
    let pad_x = div_trunc(font_h, 2);
    let text_y = div_trunc(m.bh - font_h, 2);
    let x = if has_prompt { m.promptw as int } else { 0 };
    let page = page_from(m.match_list@, m.page_start(), m.next);
    if m.lines > 0 {
        rows(page, page.len() as int, m.bh as int, m.bh as int, w, pad_x, text_y, m.sel, pal)
    } else if m.matches is Some {
        let left = match m.curr { Some(c) => m.items@[c as int].left is Some, None => false };
        let x0 = x + m.inputw + m.lt_w;
        (if left { seq![DrawOp::Text { x: (x + m.inputw + pad_x) as i32, y: text_y as i32, label: Label::Left, color: pal.normfg }] }
            else { Seq::empty() })
            + cells(page, m.item_w@, page.len() as int, x0, m.mw as int, m.gt_w as int, m.bh as int, pad_x, text_y, m.sel, pal)
            + (if m.next is Some { seq![DrawOp::Text { x: (m.mw - m.gt_w + pad_x) as i32, y: text_y as i32, label: Label::Right, color: pal.normfg }] }
               else { Seq::empty() })
    } else {
        Seq::empty()
    }
}

/// A vertical page holds no more rows than fit in `bound`.
proof fn lemma_page_rows(lines: i32, bh: i32, widths: Seq<i32>, bound: int, l: Seq<usize>, q: int, acc: int)
    requires
        lines > 0,
        bh > 0,
        0 <= q,
        acc <= bound,
        forall|a: int, b: int| 0 <= a < b < l.len() ==> l[a] != l[b],
    ensures
        acc + page_from(l, q, walk_next(lines, bh, widths, bound, l, q, acc)).len() * bh <= bound,
        match walk_next(lines, bh, widths, bound, l, q, acc) {
            Some(x) => exists|p: int| q <= p < l.len() && l[p] == x,
            None => true,
        },
    decreases l.len() - q,
{
    let n = walk_next(lines, bh, widths, bound, l, q, acc);
    if q >= l.len() {
    } else if acc + step_w(lines, bh, widths, bound, l[q]) > bound {
        assert(page_from(l, q, n).len() == 0);
    } else {
        lemma_page_rows(lines, bh, widths, bound, l, q + 1, acc + bh);
        if let Some(x) = n {
            let p = choose|p: int| q + 1 <= p < l.len() && l[p] == x;
            assert(l[q] != l[p]);
        }
        assert(page_from(l, q, n) == seq![l[q]] + page_from(l, q + 1, n));
        assert((page_from(l, q + 1, n).len() + 1) * bh == page_from(l, q + 1, n).len() * bh + bh) by (nonlinear_arith);
    }
}

impl Menu {
    /// The operations that paint this frame (see `frame`).
    pub fn draw(&self, has_prompt: bool, font_h: i32, cur_w: i32, pal: Palette) -> (ops: Vec<DrawOp>)
        requires
            self.wf(),
            self.offsets_ok(),
            frame_ok(*self, font_h as int, cur_w as int),
        ensures
            ops@ == frame(*self, has_prompt, font_h as int, cur_w as int, pal),
    {
        proof {
            self.lemma_frame_facts(font_h as int, cur_w as int);
        }
        self.draw_frame(has_prompt, font_h, cur_w, pal)
    }

    /// The page that starts at `curr` (see `frame`) and where it starts.
    pub open spec fn page_start(&self) -> int {
        match self.curr { Some(c) => self.pos_of(c), None => self.match_list@.len() as int }
    }

    /// What painting a frame needs of the menu.
    pub open spec fn frame_facts(&self, font_h: int, cur_w: int) -> bool {
        let l = self.match_list@;
        let q0 = self.page_start();
        let page = page_from(l, q0, self.next);
        &&& links_ok(self.items@, l)
        &&& 0 <= q0
        &&& self.curr == (if q0 < l.len() { Some(l[q0]) } else { None::<usize> })
        &&& (self.curr matches Some(c) ==> (c as int) < self.items@.len())
        &&& self.item_w@.len() == self.items@.len()
        &&& frame_ok(*self, font_h, cur_w)
        &&& (self.lines > 0 ==> (page.len() as int) * self.bh <= self.lines * self.bh)
    }

    /// A well-formed menu whose page offsets are right has what painting
    /// needs.
    proof fn lemma_frame_facts(&self, font_h: int, cur_w: int)
        requires
            self.wf(),
            self.offsets_ok(),
            frame_ok(*self, font_h, cur_w),
        ensures
            self.frame_facts(font_h, cur_w),
    {
        let l = self.match_list@;
        let q0 = self.page_start();
        let page = page_from(l, q0, self.next);
        if let Some(c) = self.curr {
            assert(l.contains(c));
            let p = choose|p: int| 0 <= p < l.len() && l[p] == c;
            assert(0 <= self.pos_of(c) < l.len());
        }
        assert forall|j: int| 0 <= j < l.len() implies (l[j] as int) < self.items@.len()
            && (#[trigger] self.items@[l[j] as int]).right == next_in(l, j) by {
            assert(linked(self.items@, l));
        }
        if self.lines > 0 {
            if self.bh > 0 {
                if let Some(c) = self.curr {
                    lemma_page_rows(self.lines, self.bh, self.item_w@, self.page_bound(), l, q0, 0);
                } else {
                    assert(page.len() == 0);
                }
            }
            assert((page.len() as int) * self.bh <= self.lines * self.bh) by (nonlinear_arith)
                requires self.bh >= 0, self.lines > 0, self.bh > 0 ==> (page.len() as int) * self.bh <= self.lines * self.bh;
        }
    }

    /// `draw`, from what painting needs.
    fn draw_frame(&self, has_prompt: bool, font_h: i32, cur_w: i32, pal: Palette) -> (ops: Vec<DrawOp>)
        requires
            self.frame_facts(font_h as int, cur_w as int),
        ensures
            ops@ == frame(*self, has_prompt, font_h as int, cur_w as int, pal),
    {
        let mut ops = self.head_ops(has_prompt, font_h, cur_w, pal);
        self.list_ops(&mut ops, has_prompt, font_h, pal);
        ops
    }

    /// The head of the frame (see `frame_head`).
    #[verifier::rlimit(100)]
    #[verifier::spinoff_prover]
    fn head_ops(&self, has_prompt: bool, font_h: i32, cur_w: i32, pal: Palette) -> (ops: Vec<DrawOp>)
        requires
            frame_ok(*self, font_h as int, cur_w as int),
        ensures
            ops@ == frame_head(*self, has_prompt, font_h as int, cur_w as int, pal),
    {
        let mut ops: Vec<DrawOp> = Vec::new();
        let w = if self.mw > 1 { self.mw } else { 1 };
        let h = if self.mh > 1 { self.mh } else { 1 };
        let pad_x = font_h / 2;
        let text_y = (self.bh - font_h) / 2;
        assert(pad_x == div_trunc(font_h as int, 2));
        assert(text_y == div_trunc(self.bh - font_h, 2));
        ops.push(DrawOp::Fill { x: 0, y: 0, w, h, color: pal.normbg });
        let mut x: i32 = 0;
        if has_prompt {
            ops.push(DrawOp::Fill { x: 0, y: 0, w: self.promptw, h: self.bh, color: pal.selbg });
            ops.push(DrawOp::Text { x: pad_x, y: text_y, label: Label::Prompt, color: pal.selfg });
            x = self.promptw;
        }
        let input_w = if self.lines > 0 || self.matches.is_none() { self.mw - x } else { self.inputw };
        ops.push(DrawOp::Text { x: x + pad_x, y: text_y, label: Label::Input, color: pal.normfg });
        let cx = x + pad_x + cur_w;
        if cx < x + input_w {
            ops.push(DrawOp::Fill { x: cx, y: text_y, w: 1, h: font_h, color: pal.normfg });
        }
        assert(ops@ =~= frame_head(*self, has_prompt, font_h as int, cur_w as int, pal));
        ops
    }

    /// Appends the page of matches (see `frame_list`).
    #[verifier::rlimit(100)]
    #[verifier::spinoff_prover]
    fn list_ops(&self, ops: &mut Vec<DrawOp>, has_prompt: bool, font_h: i32, pal: Palette)
        requires
            self.frame_facts(font_h as int, 0),
        ensures
            final(ops)@ == old(ops)@ + frame_list(*self, has_prompt, font_h as int, pal),
    {
        let ghost o = ops@;
        let w = if self.mw > 1 { self.mw } else { 1 };
        let pad_x = font_h / 2;
        let text_y = (self.bh - font_h) / 2;
        assert(pad_x == div_trunc(font_h as int, 2));
        assert(text_y == div_trunc(self.bh - font_h, 2));
        let x: i32 = if has_prompt { self.promptw } else { 0 };
        let ghost l = self.match_list@;
        let ghost q0 = self.page_start();
        let ghost page = page_from(l, q0, self.next);
        if self.lines > 0 {
            self.push_rows(ops, w, pad_x, text_y, pal, Ghost(l), Ghost(q0), Ghost(page));
        } else if self.matches.is_some() {
            let mut hx = x + self.inputw;
            let left = match self.curr {
                Some(c) => self.items[c].left.is_some(),
                None => false,
            };
            if left {
                ops.push(DrawOp::Text { x: hx + pad_x, y: text_y, label: Label::Left, color: pal.normfg });
            }
            hx = hx + self.lt_w;
            self.push_cells(ops, hx, pad_x, text_y, pal, Ghost(l), Ghost(q0), Ghost(page));
            if self.next.is_some() {
                ops.push(DrawOp::Text { x: self.mw - self.gt_w + pad_x, y: text_y, label: Label::Right, color: pal.normfg });
            }
        }
        assert(ops@ =~= o + frame_list(*self, has_prompt, font_h as int, pal));
    }

    /// Appends the rows of the vertical page `page`, which runs from
    /// position `q0` of the match list `l` up to `next`.
    fn push_rows(&self, ops: &mut Vec<DrawOp>, w: i32, pad_x: i32, text_y: i32, pal: Palette,
        Ghost(l): Ghost<Seq<usize>>, Ghost(q0): Ghost<int>, Ghost(page): Ghost<Seq<usize>>)
        requires
            links_ok(self.items@, l),
            0 <= q0,
            page == page_from(l, q0, self.next),
            self.curr == (if q0 < l.len() { Some(l[q0]) } else { None::<usize> }),
            0 <= self.bh && small(self.bh as int) && small(self.lines * self.bh),
            small(w as int) && small(pad_x as int) && small(text_y as int),
            (page.len() as int) * self.bh <= self.lines * self.bh,
        ensures
            final(ops)@ == old(ops)@ + rows(page, page.len() as int, self.bh as int, self.bh as int, w as int,
                pad_x as int, text_y as int, self.sel, pal),
    {
        let ghost head = ops@;
        let mut item = self.curr;
        let mut ry = self.bh;
        let ghost mut k: int = 0;
        proof {
            assert(page.subrange(0, page.len() as int) =~= page);
        }
        while item != self.next && item.is_some()
            invariant
                links_ok(self.items@, l),
                0 <= k <= page.len(),
                0 <= q0,
                item == (if q0 + k < l.len() { Some(l[q0 + k]) } else { None::<usize> }),
                page.subrange(k, page.len() as int) == page_from(l, q0 + k, self.next),
                ry == self.bh + k * self.bh,
                0 <= self.bh && small(self.bh as int) && small(self.lines * self.bh),
                small(w as int) && small(pad_x as int) && small(text_y as int),
                (page.len() as int) * self.bh <= self.lines * self.bh,
                ops@ == head + rows(page, k, self.bh as int, self.bh as int, w as int, pad_x as int, text_y as int, self.sel, pal),
            decreases l.len() - (q0 + k),
        {
            let idx = item.unwrap();
            proof {
                assert(page_from(l, q0 + k, self.next) == seq![l[q0 + k]] + page_from(l, q0 + k + 1, self.next));
                assert(page.subrange(k, page.len() as int)[0] == page[k]);
                assert(page[k] == idx);
                let pl = page.len() as int;
                let bh = self.bh as int;
                let lb = self.lines * self.bh;
                assert(k * bh <= lb) by (nonlinear_arith)
                    requires k < pl, bh >= 0, pl * bh <= lb;
            }
            let (bg, fg) = if self.sel == Some(idx) { (pal.selbg, pal.selfg) } else { (pal.normbg, pal.normfg) };
            ops.push(DrawOp::Fill { x: 0, y: ry, w, h: self.bh, color: bg });
            ops.push(DrawOp::Text { x: pad_x, y: ry + text_y, label: Label::Item(idx), color: fg });
            proof {
                assert(ops@ =~= head + rows(page, k + 1, self.bh as int, self.bh as int, w as int, pad_x as int, text_y as int, self.sel, pal));
                assert((k + 1) * self.bh == k * self.bh + self.bh) by (nonlinear_arith);
                assert(page.subrange(k + 1, page.len() as int) =~= page.subrange(k, page.len() as int).drop_first());
                assert(self.items@[l[q0 + k] as int].right == next_in(l, q0 + k));
            }
            ry = ry + self.bh;
            item = self.items[idx].right;
            proof {
                k = k + 1;
            }
        }
        proof {
            if k < page.len() {
                assert(page_from(l, q0 + k, self.next).len() > 0);
                assert(page_from(l, q0 + k, self.next).len() == 0);
            }
        }
    }

    /// Appends the cells of the horizontal page `page`, which runs from
    /// position `q0` of the match list `l` up to `next`, from `x0` on.
    fn push_cells(&self, ops: &mut Vec<DrawOp>, x0: i32, pad_x: i32, text_y: i32, pal: Palette,
        Ghost(l): Ghost<Seq<usize>>, Ghost(q0): Ghost<int>, Ghost(page): Ghost<Seq<usize>>)
        requires
            links_ok(self.items@, l),
            0 <= q0,
            page == page_from(l, q0, self.next),
            self.curr == (if q0 < l.len() { Some(l[q0]) } else { None::<usize> }),
            self.item_w@.len() == self.items@.len(),
            forall|i: int| 0 <= i < self.item_w@.len() ==> 0 <= #[trigger] self.item_w@[i] && small(self.item_w@[i] as int),
            small(self.mw as int) && small(self.gt_w as int) && small(self.bh as int),
            small(pad_x as int) && small(text_y as int),
            -0x4000000 <= x0 <= 0x4000000,
        ensures
            final(ops)@ == old(ops)@ + cells(page, self.item_w@, page.len() as int, x0 as int, self.mw as int,
                self.gt_w as int, self.bh as int, pad_x as int, text_y as int, self.sel, pal),
    {
        let ghost head = ops@;
        let ghost lo = if x0 < self.mw - self.gt_w { x0 as int } else { self.mw - self.gt_w };
        let ghost hi = if x0 < self.mw - self.gt_w { self.mw - self.gt_w } else { x0 as int };
        let mut hx = x0;
        let mut item = self.curr;
        let ghost mut k: int = 0;
        proof {
            assert(page.subrange(0, page.len() as int) =~= page);
        }
        while item != self.next && item.is_some()
            invariant
                links_ok(self.items@, l),
                self.item_w@.len() == self.items@.len(),
                forall|i: int| 0 <= i < self.item_w@.len() ==> 0 <= #[trigger] self.item_w@[i] && small(self.item_w@[i] as int),
                small(self.mw as int) && small(self.gt_w as int) && small(self.bh as int),
                small(pad_x as int) && small(text_y as int),
                0 <= k <= page.len(),
                0 <= q0,
                item == (if q0 + k < l.len() { Some(l[q0 + k]) } else { None::<usize> }),
                page.subrange(k, page.len() as int) == page_from(l, q0 + k, self.next),
                hx == cell_x(page, self.item_w@, k, x0 as int, self.mw as int, self.gt_w as int),
                lo <= hx <= hi,
                lo <= self.mw - self.gt_w <= hi,
                -0x4000000 <= lo && hi <= 0x4000000,
                ops@ == head + cells(page, self.item_w@, k, x0 as int, self.mw as int, self.gt_w as int, self.bh as int,
                    pad_x as int, text_y as int, self.sel, pal),
            decreases l.len() - (q0 + k),
        {
            let idx = item.unwrap();
            proof {
                assert(page_from(l, q0 + k, self.next) == seq![l[q0 + k]] + page_from(l, q0 + k + 1, self.next));
                assert(page.subrange(k, page.len() as int)[0] == page[k]);
                assert(page[k] == idx);
            }
            let iw0 = self.item_w[idx];
            let room = self.mw - hx - self.gt_w;
            let iw = if iw0 < room { iw0 } else { room };
            let (bg, fg) = if self.sel == Some(idx) { (pal.selbg, pal.selfg) } else { (pal.normbg, pal.normfg) };
            ops.push(DrawOp::Fill { x: hx, y: 0, w: iw, h: self.bh, color: bg });
            ops.push(DrawOp::Text { x: hx + pad_x, y: text_y, label: Label::Item(idx), color: fg });
            proof {
                assert(ops@ =~= head + cells(page, self.item_w@, k + 1, x0 as int, self.mw as int, self.gt_w as int, self.bh as int,
                    pad_x as int, text_y as int, self.sel, pal));
                assert(page.subrange(k + 1, page.len() as int) =~= page.subrange(k, page.len() as int).drop_first());
                assert(self.items@[l[q0 + k] as int].right == next_in(l, q0 + k));
            }
            hx = hx + iw;
            item = self.items[idx].right;
            proof {
                k = k + 1;
            }
        }
        proof {
            if k < page.len() {
                assert(page_from(l, q0 + k, self.next).len() > 0);
                assert(page_from(l, q0 + k, self.next).len() == 0);
            }
        }
    }
}

} // verus!
