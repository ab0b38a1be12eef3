//! Properties that hold across calls and of every input.

use vstd::prelude::*;
use crate::wm::config::{TAG_MASK, TAGS_LEN, BORDERPX};
use crate::wm::lists::{pos, lemma_pos, first_visible};
use crate::wm::layout::{tile_placed, stacked_ok, stack_cell, stack_x, stack_w};
use crate::wm::geometry::resize_result;
use crate::wm::actions::{stack_step, last_visible};
use crate::wm::hints::{nul_from, split_class, rule_applies};
use crate::menu::input::finished;
use vstd::string::StringSliceAdditionalSpecFns;
use crate::wm::bar::{Click, bar_hit, prefix, edge, widths_ok};
use crate::wm::screens::{Screen, uniq};
use crate::wl::{Rect, ClientData, Monitor, set_slot, wrap, tile_rect, hinted_size, rect_ok, lemma_rows, bar_top,
    work_area_of, viewed, settings_ok, BAR_HEIGHT};
use crate::wm::actions::tag_index;
use crate::menu::matching::{rune_walk, is_cont, match_order, select, all_items, match_class};
use crate::text::{text_contains, match_at};
use crate::menu::state::Menu;
use crate::menu::input::{KeyInput, KeyCommand, key_effect, key_command, inserted, edit_text, edit_cursor, edit_ok,
    prev_rune, next_rune, cut_back, kill_spaces, kill_nonspaces, kill_word, lemma_prev_rune, lemma_next_rune, has_control};
use crate::menu::keysyms::{XK_BACKSPACE, XK_TAB, XK_RETURN, XK_ESCAPE, XK_DELETE, XK_HOME, XK_LEFT, XK_UP, XK_RIGHT,
    XK_DOWN, XK_PRIOR, XK_NEXT, XK_END, XK_KP_ENTER};
use crate::wm::model::screen;

use crate::menu::keysyms::is_upper_keysym;
use crate::menu::state::div_trunc;

verus! {

/// Taking out a client that was just put at the head of a list gives the
/// list back: detaching undoes attaching.
pub proof fn law_detach_undoes_attach(l: Seq<usize>, c: usize)
    requires
        !l.contains(c),
    ensures
        (seq![c] + l).remove(pos(seq![c] + l, c)) == l,
{
    let s = seq![c] + l;
    assert(s[0] == c);
    let p = pos(s, c);
    assert(0 <= p < s.len() && s[p] == c);
    if p > 0 {
        assert(l[p - 1] == c);
    }
    assert(s.remove(p) =~= l);
}

/// Toggling the same tags twice in a shown tag set, both times leaving
/// some tag shown, gives the tag set back.
pub proof fn law_toggleview_twice(tagset: [u32; 2], s: usize, u: u32)
    requires
        s < 2,
    ensures
        ({
            let x = u & TAG_MASK;
            let once = set_slot(tagset, s, tagset[s as int] ^ x);
            set_slot(once, s, once[s as int] ^ x) == tagset
        }),
{
    let x = u & TAG_MASK;
    let t = tagset[s as int];
    assert((t ^ x) ^ x == t) by (bit_vector);
}

/// Toggling the same tags twice on a window gives its tags back.
pub proof fn law_toggletag_twice(c: ClientData, u: u32)
    ensures
        (c.tags ^ (u & TAG_MASK)) ^ (u & TAG_MASK) == c.tags,
{
    let t = c.tags;
    let x = u & TAG_MASK;
    assert((t ^ x) ^ x == t) by (bit_vector);
}

/// The lower-case form of a keysym, as `to_lower` gives it.
pub open spec fn lower_keysym(ks: u32) -> u32 {
    if is_upper_keysym(ks) { (ks + 0x20) as u32 } else { ks }
}

/// Lower-casing a lower-cased keysym changes nothing.
pub proof fn law_to_lower_idempotent(ks: u32)
    ensures
        lower_keysym(lower_keysym(ks)) == lower_keysym(ks),
{
}

/// Stepping `dir` from `cur` and then `-dir` back, wrapping around `len`
/// places (as `focusstack`, `focusmon` and `tagmon` do), returns to `cur`.
pub proof fn law_cycle_back(cur: int, dir: int, len: int)
    requires
        0 <= cur < len,
    ensures
        wrap(wrap(cur + dir, len) - dir, len) == cur,
{
    let a = wrap(cur + dir, len);
    let q = (cur + dir) / len;
    assert(cur + dir == q * len + a) by {
        vstd::arithmetic::div_mod::lemma_fundamental_div_mod(cur + dir, len);
    }
    assert(a - dir == cur + (-q) * len) by (nonlinear_arith)
        requires cur + dir == q * len + a;
    vstd::arithmetic::div_mod::lemma_fundamental_div_mod_converse(a - dir, len, -q, cur);
}

/// The tiling layout's stack rows follow one another without gaps, each
/// starting where the previous one (with its borders) ends, and the last
/// one ends at the bottom of the window area; the master column and the
/// stack column, with their borders, span the area's width.
pub proof fn law_tile_stack_fills(wa: Rect, n: int, mw: int)
    requires
        2 <= n <= i32::MAX,
        rect_ok(wa),
        screen(mw),
    ensures
        forall|i: int| 1 <= i < n - 1 ==> #[trigger] tile_rect(wa, n, mw, i + 1).y
            == tile_rect(wa, n, mw, i).y + tile_rect(wa, n, mw, i).h + 2 * BORDERPX,
        tile_rect(wa, n, mw, n - 1).y + tile_rect(wa, n, mw, n - 1).h + 2 * BORDERPX == wa.y + wa.h,
        tile_rect(wa, n, mw, 0).w + 2 * BORDERPX + tile_rect(wa, n, mw, 1).w + 2 * BORDERPX == wa.w,
{
    assert forall|i: int| 1 <= i < n - 1 implies #[trigger] tile_rect(wa, n, mw, i + 1).y
        == tile_rect(wa, n, mw, i).y + tile_rect(wa, n, mw, i).h + 2 * BORDERPX by {
        let he = div_trunc(wa.h as int, n - 1);
        lemma_rows(wa.h as int, n - 1, i - 1);
        lemma_rows(wa.h as int, n - 1, i);
        lemma_rows(wa.h as int, n - 1, 1);
        assert(wa.y + i * he == wa.y + (i - 1) * he + he) by (nonlinear_arith);
    }
    let he = div_trunc(wa.h as int, n - 1);
    lemma_rows(wa.h as int, n - 1, n - 2);
    lemma_rows(wa.h as int, n - 1, 1);
}

/// The size hints keep a size within the maximum, where one is set, and
/// at least the minimum, unless the maximum is below it.
pub proof fn law_size_hints_bounds(c: ClientData, w: int, h: int, asp: (i32, i32))
    ensures
        c.maxw != 0 ==> hinted_size(c, w, h, asp).0 <= c.maxw,
        c.maxh != 0 ==> hinted_size(c, w, h, asp).1 <= c.maxh,
        (c.maxw == 0 || c.maxw >= c.minw) ==> hinted_size(c, w, h, asp).0 >= c.minw,
        (c.maxh == 0 || c.maxh >= c.minh) ==> hinted_size(c, w, h, asp).1 >= c.minh,
{
}

/// Cell edges only grow from left to right.
proof fn lemma_prefix_mono(w: Seq<i32>, a: int, b: int)
    requires
        widths_ok(w),
        0 <= a <= b <= w.len(),
    ensures
        prefix(w, a) <= prefix(w, b),
    decreases b - a,
{
    if a < b {
        lemma_prefix_mono(w, a, b - 1);
    }
}

/// A click inside the cell that the bar draws for tag `i` selects tag
/// `i`.
pub proof fn law_click_hits_drawn_tag(tag_w: Seq<i32>, blw: int, stext_w: int, wx: int, ww: int, i: int, x: int)
    requires
        tag_w.len() == TAGS_LEN,
        widths_ok(tag_w),
        0 <= i < TAGS_LEN,
        prefix(tag_w, i) <= x < prefix(tag_w, i + 1),
    ensures
        bar_hit(tag_w, blw, stext_w, wx, ww, x) == (Click::TagBar, 1u32 << i as u32),
{
    assert(x < edge(tag_w, i));
    let c = choose|c: int| 0 <= c < TAGS_LEN && x < edge(tag_w, c)
        && forall|j: int| 0 <= j < c ==> x >= #[trigger] edge(tag_w, j);
    assert forall|j: int| 0 <= j < i implies x >= #[trigger] edge(tag_w, j) by {
        lemma_prefix_mono(tag_w, j + 1, i);
    }
    if c < i {
        assert(x >= edge(tag_w, c));
    } else if c > i {
        assert(x >= edge(tag_w, i));
    }
}

/// The distinct screens hold no screen twice, and every screen reported.
pub proof fn law_uniq_screens(s: Seq<Screen>)
    ensures
        forall|a: int, b: int| 0 <= a < b < uniq(s).len() ==> uniq(s)[a] != uniq(s)[b],
        forall|i: int| 0 <= i < s.len() ==> uniq(s).contains(#[trigger] s[i]),
        forall|i: int| 0 <= i < uniq(s).len() ==> s.contains(#[trigger] uniq(s)[i]),
    decreases s.len(),
{
    if s.len() > 0 {
        let t = s.drop_last();
        law_uniq_screens(t);
        let u = uniq(t);
        assert forall|i: int| 0 <= i < s.len() implies uniq(s).contains(#[trigger] s[i]) by {
            if i < s.len() - 1 {
                assert(t[i] == s[i]);
                let j = choose|j: int| 0 <= j < u.len() && u[j] == t[i];
                if !u.contains(s.last()) {
                    assert(uniq(s)[j] == s[i]);
                }
            } else {
                if u.contains(s.last()) {
                } else {
                    assert(uniq(s)[u.len() as int] == s.last());
                }
            }
        }
        assert forall|i: int| 0 <= i < uniq(s).len() implies s.contains(#[trigger] uniq(s)[i]) by {
            if i < u.len() {
                let j = choose|j: int| 0 <= j < t.len() && t[j] == u[i];
                assert(s[j] == t[j]);
            } else {
                assert(s[s.len() - 1] == s.last());
            }
        }
    }
}


/// On a monitor whose bar shows and whose window area was last set for
/// the bar's height, the bar's rows (from `bar_top`, what `bar_y` gives)
/// and the window area's rows split the output's rows between them, and
/// the window area spans the output's width.
pub proof fn law_bar_and_work_area_split_output(m: Monitor, y: int)
    requires
        rect_ok(m.geometry),
        m.showbar,
        m.work_area == work_area_of(m.geometry, m.showbar, m.topbar, BAR_HEIGHT as int),
        0 <= BAR_HEIGHT <= m.geometry.h,
    ensures
        ({
            let g = m.geometry;
            let b = bar_top(g, m.topbar);
            let wa = m.work_area;
            &&& wa.x == g.x && wa.w == g.w
            &&& (g.y <= y < g.y + g.h) <==> ((b <= y < b + BAR_HEIGHT) || (wa.y <= y < wa.y + wa.h))
            &&& !((b <= y < b + BAR_HEIGHT) && (wa.y <= y < wa.y + wa.h))
        }),
{
}

/// The tag a nonempty tag set within the tag mask selects does not depend
/// on the tag in use before.
proof fn lemma_tag_index_any_cur(want: u32, c1: usize, c2: usize, i: nat)
    requires
        want & TAG_MASK == want,
        want != 0,
        i <= TAGS_LEN,
        forall|j: u32| j < i ==> #[trigger] (want & (1u32 << j)) == 0,
    ensures
        tag_index(want, c1, i) == tag_index(want, c2, i),
    decreases TAGS_LEN - i,
{
    if want == TAG_MASK {
    } else if i >= TAGS_LEN {
        assert(want & (1u32 << 0u32) == 0);
        assert(want & (1u32 << 1u32) == 0);
        assert(want & (1u32 << 2u32) == 0);
        assert(want & (1u32 << 3u32) == 0);
        assert(want & (1u32 << 4u32) == 0);
        assert(want & (1u32 << 5u32) == 0);
        assert(want & (1u32 << 6u32) == 0);
        assert(want & (1u32 << 7u32) == 0);
        assert(want & (1u32 << 8u32) == 0);
        assert(false) by (bit_vector)
            requires
                want & 0x1ff == want, want != 0,
                want & (1u32 << 0u32) == 0, want & (1u32 << 1u32) == 0, want & (1u32 << 2u32) == 0,
                want & (1u32 << 3u32) == 0, want & (1u32 << 4u32) == 0, want & (1u32 << 5u32) == 0,
                want & (1u32 << 6u32) == 0, want & (1u32 << 7u32) == 0, want & (1u32 << 8u32) == 0;
    } else if want & (1u32 << i as u32) != 0 {
    } else {
        assert forall|j: u32| j < i + 1 implies #[trigger] (want & (1u32 << j)) == 0 by {
            if j < i {
            } else {
                assert(j == i as u32);
            }
        }
        lemma_tag_index_any_cur(want, c1, c2, i + 1);
    }
}

/// The per-tag split is remembered: on a monitor showing tags `a` whose
/// settings are in use, viewing other tags `b` and then `a` again brings
/// back `a`'s master factor, layout and bar.
pub proof fn law_view_back_restores_tag_settings(m: Monitor, b: u32)
    requires
        settings_ok(m),
        ({
            let a = m.tagset[m.seltags as int];
            &&& a & TAG_MASK == a && a != 0
            &&& b & TAG_MASK == b && b != 0 && b != a
            &&& m.curtag == tag_index(a, m.curtag, 0)
            &&& m.mfacts@[m.curtag as int] == m.mfact
            &&& m.lts@[m.curtag as int] == m.lt[m.sellt as int]
            &&& m.showbars@[m.curtag as int] == m.showbar
        }),
    ensures
        ({
            let a = m.tagset[m.seltags as int];
            let m2 = viewed(viewed(m, b), a);
            &&& m2.tagset[m2.seltags as int] == a
            &&& m2.curtag == m.curtag
            &&& m2.mfact == m.mfact
            &&& m2.lt[m2.sellt as int] == m.lt[m.sellt as int]
            &&& m2.showbar == m.showbar
            &&& m2.mfacts@ == m.mfacts@ && m2.lts@ == m.lts@ && m2.showbars@ == m.showbars@
        }),
{
    let a = m.tagset[m.seltags as int];
    let m1 = viewed(m, b);
    assert(m1.tagset[m1.seltags as int] == b);
    assert forall|j: u32| j < 0 implies #[trigger] (a & (1u32 << j)) == 0 by {}
    lemma_tag_index_any_cur(a, m1.curtag, m.curtag, 0);
}

/// Stepping the cursor one character forward from a character boundary
/// and then one back returns to that boundary.
pub proof fn law_rune_round_trip(text: Seq<u8>, c: int)
    requires
        0 <= c < text.len(),
        c == 0 || !is_cont(text[c]),
    ensures
        rune_walk(text, rune_walk(text, c + 1, 1) - 1, -1) == c,
{
    lemma_rune_forward(text, c, c + 1);
    let f = rune_walk(text, c + 1, 1);
    lemma_rune_back(text, c, f - 1);
}

/// Walking forward from past `c` over continuation bytes stops at the text's
/// end or a byte that starts a character, with only continuation bytes
/// after `c` before it.
proof fn lemma_rune_forward(text: Seq<u8>, c: int, n: int)
    requires
        0 <= c < n <= text.len(),
        forall|k: int| c < k < n ==> #[trigger] is_cont(text[k]),
    ensures
        n <= rune_walk(text, n, 1) <= text.len(),
        forall|k: int| c < k < rune_walk(text, n, 1) ==> #[trigger] is_cont(text[k]),
    decreases text.len() - n,
{
    if !crate::menu::matching::rune_stop(text, n, 1) {
        assert forall|k: int| c < k < n + 1 implies #[trigger] is_cont(text[k]) by {
            if k < n {
            }
        }
        lemma_rune_forward(text, c, n + 1);
    }
}

/// Walking back from `n` over continuation bytes after the boundary `c`
/// stops at `c`.
proof fn lemma_rune_back(text: Seq<u8>, c: int, n: int)
    requires
        0 <= c <= n < text.len(),
        c == 0 || !is_cont(text[c]),
        forall|k: int| c < k <= n ==> #[trigger] is_cont(text[k]),
    ensures
        rune_walk(text, n, -1) == c,
    decreases n,
{
    if n > c {
        assert(is_cont(text[n]));
        lemma_rune_back(text, c, n - 1);
    }
}


/// Every cursor move by characters lands on a character boundary: the
/// walk forward stops at the end of the text or at a byte that is no
/// continuation byte, and so does the walk back, unless it reaches the
/// start.
pub proof fn law_rune_walk_stops_on_boundary(text: Seq<u8>, n: int, inc: int)
    requires
        inc == 1 || inc == -1,
    ensures
        ({
            let r = rune_walk(text, n, inc);
            r + inc < 0 || r < 0 || r >= text.len() || !is_cont(text[r])
        }),
    decreases crate::menu::matching::rune_measure(text, n, inc),
{
    if !crate::menu::matching::rune_stop(text, n, inc) {
        law_rune_walk_stops_on_boundary(text, n + inc, inc);
    }
}


/// What `select` keeps of `order` for class `c` is `order` filtered to the
/// items of class `c`, in the same order.
proof fn lemma_select_filter(order: Seq<usize>, texts: Seq<Seq<u8>>, t: Seq<u8>, ci: bool, c: int)
    ensures
        select(order, texts, t, ci, c) == order.filter(|i: usize| match_class(texts[i as int], t, ci) == c),
    decreases order.len(),
{
    reveal(Seq::filter);
    if order.len() > 0 {
        lemma_select_filter(order.drop_last(), texts, t, ci, c);
    }
}

/// An item is selected for class `c` exactly when it is in `order` and of
/// class `c`.
proof fn lemma_select_contains(order: Seq<usize>, texts: Seq<Seq<u8>>, t: Seq<u8>, ci: bool, c: int, x: usize)
    ensures
        select(order, texts, t, ci, c).contains(x) <==> (order.contains(x) && match_class(texts[x as int], t, ci) == c),
    decreases order.len(),
{
    if order.len() > 0 {
        let d = order.drop_last();
        lemma_select_contains(d, texts, t, ci, c, x);
        let r = select(d, texts, t, ci, c);
        if order.contains(x) && x != order.last() {
            let j = choose|j: int| 0 <= j < order.len() && order[j] == x;
            assert(d[j] == x);
        }
        if d.contains(x) {
            let j = choose|j: int| 0 <= j < d.len() && d[j] == x;
            assert(order[j] == x);
        }
        if match_class(texts[order.last() as int], t, ci) == c {
            let r2 = r.push(order.last());
            if r.contains(x) {
                let j = choose|j: int| 0 <= j < r.len() && r[j] == x;
                assert(r2[j] == x);
            }
            if r2.contains(x) && x != order.last() {
                let j = choose|j: int| 0 <= j < r2.len() && r2[j] == x;
                assert(r[j] == x);
            }
            assert(r2[r.len() as int] == order.last());
        }
        assert(order[order.len() - 1] == order.last());
    }
}

/// An item is in the match list built from `order` exactly when it is in
/// `order` and its text contains the input.
proof fn lemma_match_order_contains(order: Seq<usize>, texts: Seq<Seq<u8>>, t: Seq<u8>, ci: bool, x: usize)
    ensures
        match_order(order, texts, t, ci).contains(x) <==> (order.contains(x) && text_contains(texts[x as int], t, ci)),
{
    lemma_select_contains(order, texts, t, ci, 0, x);
    lemma_select_contains(order, texts, t, ci, 1, x);
    lemma_select_contains(order, texts, t, ci, 2, x);
    let a = select(order, texts, t, ci, 0);
    let b = select(order, texts, t, ci, 1);
    let c = select(order, texts, t, ci, 2);
    let l = a + b + c;
    if l.contains(x) {
        let j = choose|j: int| 0 <= j < l.len() && l[j] == x;
        if j < a.len() {
            assert(a[j] == x);
        } else if j < a.len() + b.len() {
            assert(b[j - a.len()] == x);
        } else {
            assert(c[j - a.len() - b.len()] == x);
        }
    }
    if order.contains(x) && text_contains(texts[x as int], t, ci) {
        let k = match_class(texts[x as int], t, ci);
        if k == 0 {
            let j = choose|j: int| 0 <= j < a.len() && a[j] == x;
            assert(l[j] == x);
        } else if k == 1 {
            let j = choose|j: int| 0 <= j < b.len() && b[j] == x;
            assert(l[a.len() + j] == x);
        } else {
            let j = choose|j: int| 0 <= j < c.len() && c[j] == x;
            assert(l[a.len() + b.len() + j] == x);
        }
    }
    let k = match_class(texts[x as int], t, ci);
    if k == 0 || k == 1 {
        assert(match_at(texts[x as int], t, 0, ci));
    }
}

/// A text that contains `t0` followed by `s` contains `t0`.
proof fn lemma_contains_prefix(x: Seq<u8>, t0: Seq<u8>, s: Seq<u8>, ci: bool)
    requires
        text_contains(x, t0 + s, ci),
    ensures
        text_contains(x, t0, ci),
{
    let t = t0 + s;
    let i = choose|i: int| match_at(x, t, i, ci);
    assert forall|j: int| 0 <= j < t0.len() implies crate::text::byte_eq(x[i + j], #[trigger] t0[j], ci) by {
        assert(t[j] == t0[j]);
    }
    assert(match_at(x, t0, i, ci));
}

/// Rematching only the items that matched `t0` after the input grew to
/// `t0` followed by `s` gives the same items as rematching all of them,
/// and each group (exact, prefix, substring matches) keeps the order of
/// the previous list.
pub proof fn law_incremental_rematch(texts: Seq<Seq<u8>>, t0: Seq<u8>, s: Seq<u8>, ci: bool)
    ensures
        ({
            let n = texts.len();
            let old_list = match_order(all_items(n), texts, t0, ci);
            let t = t0 + s;
            &&& forall|x: usize| match_order(old_list, texts, t, ci).contains(x)
                <==> #[trigger] match_order(all_items(n), texts, t, ci).contains(x)
            &&& forall|c: int| 0 <= c < 3 ==> #[trigger] select(old_list, texts, t, ci, c)
                == old_list.filter(|i: usize| match_class(texts[i as int], t, ci) == c)
        }),
{
    let n = texts.len();
    let old_list = match_order(all_items(n), texts, t0, ci);
    let t = t0 + s;
    assert forall|x: usize| match_order(old_list, texts, t, ci).contains(x)
        <==> #[trigger] match_order(all_items(n), texts, t, ci).contains(x) by {
        lemma_match_order_contains(old_list, texts, t, ci, x);
        lemma_match_order_contains(all_items(n), texts, t0, ci, x);
        lemma_match_order_contains(all_items(n), texts, t, ci, x);
        if text_contains(texts[x as int], t, ci) {
            lemma_contains_prefix(texts[x as int], t0, s, ci);
        }
        if (x as int) < n {
            assert(all_items(n)[x as int] == x);
        }
    }
    assert forall|c: int| 0 <= c < 3 implies #[trigger] select(old_list, texts, t, ci, c)
        == old_list.filter(|i: usize| match_class(texts[i as int], t, ci) == c) by {
        lemma_select_filter(old_list, texts, t, ci, c);
    }
}


/// Position `c` of `t` is a character boundary: the end, or a byte that
/// is no continuation byte.
pub open spec fn on_boundary(t: Seq<u8>, c: int) -> bool {
    0 <= c <= t.len() && (c == t.len() || !is_cont(t[c]))
}

/// The cursor of a menu is on a character boundary of its input, which
/// does not start inside a character.
pub open spec fn cursor_ok(a: Menu) -> bool {
    on_boundary(a.text@, 0) && on_boundary(a.text@, a.cursor as int)
}

/// Cutting the bytes from `p` to the boundary `c` leaves the cursor at `p`
/// on a boundary of an input that starts cleanly.
proof fn lemma_cut_keeps_boundary(t: Seq<u8>, p: int, c: int)
    requires
        on_boundary(t, 0),
        on_boundary(t, c),
        0 <= p <= c,
    ensures
        on_boundary(t.take(p) + t.skip(c), 0),
        on_boundary(t.take(p) + t.skip(c), p),
{
    let u = t.take(p) + t.skip(c);
    if c < t.len() {
        assert(u[p] == t[c]);
    }
    if p > 0 {
        assert(u[0] == t[0]);
    } else if c < t.len() {
        assert(u[0] == t[c]);
    }
}

/// Inserting `n` bytes that start cleanly at the boundary `c` leaves the
/// cursor after them on a boundary of an input that starts cleanly.
proof fn lemma_insert_keeps_boundary(t: Seq<u8>, c: int, s: Seq<u8>, n: int)
    requires
        on_boundary(t, 0),
        on_boundary(t, c),
        0 < n <= s.len(),
        !is_cont(s[0]),
    ensures
        on_boundary(t.take(c) + s.take(n) + t.skip(c), 0),
        on_boundary(t.take(c) + s.take(n) + t.skip(c), c + n),
{
    let u = t.take(c) + s.take(n) + t.skip(c);
    if c < t.len() {
        assert(u[c + n] == t[c]);
    }
    if c > 0 {
        assert(u[0] == t[0]);
    } else {
        assert(u[0] == s[0]);
    }
}

/// A step back by one character from a boundary lands on a boundary of an
/// input that starts cleanly.
proof fn lemma_prev_on_boundary(t: Seq<u8>, c: int)
    requires
        on_boundary(t, 0),
        0 < c <= t.len(),
    ensures
        on_boundary(t, prev_rune(t, c)),
        0 <= prev_rune(t, c) < c,
{
    lemma_prev_rune(t, c);
    law_rune_walk_stops_on_boundary(t, c - 1, -1);
}

/// A step forward by one character lands on a boundary.
proof fn lemma_next_on_boundary(t: Seq<u8>, c: int)
    requires
        0 <= c < t.len(),
    ensures
        on_boundary(t, next_rune(t, c)),
        c < next_rune(t, c) <= t.len(),
{
    lemma_next_rune(t, c);
    law_rune_walk_stops_on_boundary(t, c + 1, 1);
}

/// Cutting one character back from a boundary keeps the boundary.
proof fn lemma_cut_back_keeps_boundary(t: Seq<u8>, c: int)
    requires
        on_boundary(t, 0),
        on_boundary(t, c),
        0 < c,
    ensures
        on_boundary(cut_back(t, c), 0),
        on_boundary(cut_back(t, c), prev_rune(t, c)),
{
    lemma_prev_on_boundary(t, c);
    lemma_cut_keeps_boundary(t, prev_rune(t, c), c);
}

proof fn lemma_kill_spaces_boundary(t: Seq<u8>, c: int)
    requires
        on_boundary(t, 0),
        on_boundary(t, c),
    ensures
        on_boundary(kill_spaces(t, c).0, 0),
        on_boundary(kill_spaces(t, c).0, kill_spaces(t, c).1),
    decreases c,
{
    if 0 < c <= t.len() && t[prev_rune(t, c)] == 0x20 {
        lemma_prev_rune(t, c);
        lemma_cut_back_keeps_boundary(t, c);
        lemma_kill_spaces_boundary(cut_back(t, c), prev_rune(t, c));
    }
}

proof fn lemma_kill_nonspaces_boundary(t: Seq<u8>, c: int)
    requires
        on_boundary(t, 0),
        on_boundary(t, c),
    ensures
        on_boundary(kill_nonspaces(t, c).0, 0),
        on_boundary(kill_nonspaces(t, c).0, kill_nonspaces(t, c).1),
    decreases c,
{
    if 0 < c <= t.len() && t[prev_rune(t, c)] != 0x20 {
        lemma_prev_rune(t, c);
        lemma_cut_back_keeps_boundary(t, c);
        lemma_kill_nonspaces_boundary(cut_back(t, c), prev_rune(t, c));
    }
}

/// An edit of the input (`inserted`) from a boundary, with typed text
/// that starts cleanly, leaves the cursor on a boundary.
proof fn lemma_inserted_boundary(a: Menu, b: Menu, s: Seq<u8>, n: int)
    requires
        cursor_ok(a),
        inserted(a, b, s, n),
        n > 0 ==> n <= s.len() && !is_cont(s[0]),
        n < 0 ==> a.cursor + n >= 0,
    ensures
        cursor_ok(b),
{
    let t = a.text@;
    let c = a.cursor as int;
    if edit_ok(t, n) {
        if n > 0 {
            lemma_insert_keeps_boundary(t, c, s, n);
        } else if n < 0 {
            lemma_cut_keeps_boundary(t, c + n, c);
        }
    }
}

/// A key resolved to keysym `ks` keeps the cursor on a boundary (see
/// `law_cursor_stays_on_boundary`).
#[verifier::rlimit(100)]
#[verifier::spinoff_prover]
proof fn lemma_key_boundary(a: Menu, b: Menu, ks: u32, k: KeyInput, out: Option<Vec<u8>>)
    requires
        a.wf(),
        cursor_ok(a),
        crate::menu::input::keysym_effect(a, b, ks, k, out),
        k.utf8 matches Some(v) ==> (v@.len() == 0 || !is_cont(v@[0])),
        forall|i: int| 0 <= i < a.items@.len() ==> on_boundary(#[trigger] a.items@[i].text@, 0),
    ensures
        cursor_ok(b),
{
    let t = a.text@;
    let c = a.cursor as int;
    assert(t.len() == a.text.len());
    if ks == XK_RETURN || ks == XK_KP_ENTER || ks == XK_ESCAPE {
        assert(cursor_ok(b));
    } else if ks == XK_DELETE {
        if c < t.len() {
            let c1 = next_rune(t, c);
            lemma_next_on_boundary(t, c);
            let a1 = Menu { cursor: c1 as usize, ..a };
            assert(a1.cursor as int == c1);
            lemma_prev_rune(t, c1);
            assert(cursor_ok(a1));
            lemma_inserted_boundary(a1, b, Seq::empty(), prev_rune(t, c1) - c1);
        }
        assert(cursor_ok(b));
    } else if ks == XK_BACKSPACE {
        if c > 0 {
            lemma_prev_on_boundary(t, c);
            lemma_inserted_boundary(a, b, Seq::empty(), prev_rune(t, c) - c);
        }
        assert(cursor_ok(b));
    } else if ks == XK_END || ks == XK_HOME || ks == XK_UP || ks == XK_NEXT || ks == XK_PRIOR
        || ks == XK_DOWN {
        assert(cursor_ok(b));
    } else if ks == XK_LEFT {
        if c > 0 {
            lemma_prev_on_boundary(t, c);
        }
        assert(cursor_ok(b));
    } else if ks == XK_RIGHT {
        if c < t.len() {
            lemma_next_on_boundary(t, c);
        }
        assert(cursor_ok(b));
    } else if ks == XK_TAB {
        if a.sel is Some {
            let st = a.sel.unwrap();
            if (st as int) < a.items@.len() {
                assert(on_boundary(a.items@[st as int].text@, 0));
            }
        }
        assert(cursor_ok(b));
    } else {
        match k.utf8 {
            Some(v) => {
                if v@.len() > 0 && !has_control(v@) {
                    lemma_inserted_boundary(a, b, v@, v@.len() as int);
                }
            },
            None => {},
        }
    }
}

/// Whatever key is pressed, the cursor stays on a character boundary of
/// an input that does not start inside a character, as long as typed text
/// and the items' texts do not start inside a character either.
pub proof fn law_cursor_stays_on_boundary(a: Menu, b: Menu, k: KeyInput, out: Option<Vec<u8>>)
    requires
        a.wf(),
        cursor_ok(a),
        key_effect(a, b, k, out),
        k.utf8 matches Some(v) ==> (v@.len() == 0 || !is_cont(v@[0])),
        forall|i: int| 0 <= i < a.items@.len() ==> on_boundary(#[trigger] a.items@[i].text@, 0),
    ensures
        cursor_ok(b),
{
    let t = a.text@;
    let c = a.cursor as int;
    assert(t.len() == a.text.len());
    match key_command(k.keysym, k.ctrl) {
        KeyCommand::KillToEnd => {
            if c > 0 {
                assert(t.take(c)[0] == t[0]);
            }
        },
        KeyCommand::KillLine => {
            lemma_inserted_boundary(a, b, Seq::empty(), -c);
        },
        KeyCommand::KillWord => {
            lemma_kill_spaces_boundary(t, c);
            let ks = kill_spaces(t, c);
            lemma_kill_nonspaces_boundary(ks.0, ks.1);
            assert(cursor_ok(b));
        },
        KeyCommand::Ignore => { assert(cursor_ok(b)); },
        KeyCommand::Key(ks) => {
            lemma_key_boundary(a, b, ks, k, out);
        },
    }
}


/// The tile layout stacks the clients after the master one from the top
/// of the window area down, each requested just below the previous one as
/// it was placed (when the cells are shorter than the window area), and
/// the last one requested to end at the bottom of the window area.
pub proof fn law_tile_stack_rows<A: Fn(crate::wm::model::Aspect, i32, i32) -> (i32, i32)>(aspect: &A,
    o: crate::wm::model::Wm, cs: Seq<crate::wm::model::Client>, m: usize, t: Seq<usize>, mw: int, k: int)
    requires
        tile_placed(aspect, o, cs, m, t, mw),
        1 <= k < t.len(),
        k == 1 || stack_cell(o.mons@[m as int], o.bh as int, t.len() as int) < o.mons@[m as int].wh,
    ensures
        ({
            let mn = o.mons@[m as int];
            let c = o.clients@[t[k] as int];
            let prev = cs[t[k - 1] as int];
            let y = if k == 1 { mn.wy as int } else { prev.y + prev.h + 2 * prev.bw };
            let h = if k == t.len() - 1 { mn.wy + mn.wh - y - 2 * c.bw }
                else { stack_cell(mn, o.bh as int, t.len() as int) - 2 * c.bw };
            resize_result(aspect, c, mn, o.sw as int, o.sh as int, o.bh as int, stack_x(mn, cs[t[0] as int], mw), y,
                stack_w(mn, cs[t[0] as int], mw) - 2 * c.bw, h, false, cs[t[k] as int])
        }),
{
    assert(stacked_ok(aspect, o, cs, m, t, mw, k));
    reveal(stacked_ok);
}

/// Moving the focus forward from the client at position `p` of the list
/// `l`, when another client shows on the monitor, picks a client other
/// than the selected one that shows there: the first showing one after
/// position `p`, or, when none follows, the first showing one of the list.
pub proof fn law_focus_forward(cs: Seq<crate::wm::model::Client>, mn: crate::wm::model::Monitor, l: Seq<usize>,
    p: int, x: int, dir: i32)
    requires
        crate::wm::model::distinct(l),
        0 <= p < l.len(),
        0 <= x < l.len(),
        x != p,
        crate::wm::model::visible(cs[l[x] as int], mn),
        dir > 0,
    ensures
        stack_step(cs, mn, l, l[p], dir) matches Some(n) && n != l[p]
            && crate::wm::model::visible(cs[n as int], mn)
            && exists|j: int| 0 <= j < l.len() && l[j] == n
                && ((exists|i: int| p < i < l.len() && crate::wm::model::visible(cs[l[i] as int], mn))
                    ==> p < j && forall|i: int| p < i < j ==> !crate::wm::model::visible(#[trigger] cs[l[i] as int], mn))
                && (!(exists|i: int| p < i < l.len() && crate::wm::model::visible(cs[l[i] as int], mn))
                    ==> forall|i: int| 0 <= i < j ==> !crate::wm::model::visible(#[trigger] cs[l[i] as int], mn)),
{
    assert(l.contains(l[p]));
    lemma_pos(l, l[p]);
    assert(pos(l, l[p]) == p);
    if exists|i: int| p < i < l.len() && crate::wm::model::visible(cs[l[i] as int], mn) {
        lemma_first_visible_at(cs, mn, l, p + 1);
    } else {
        lemma_first_visible_at(cs, mn, l, p + 1);
        lemma_first_visible_at(cs, mn, l, 0);
        let j = choose|j: int| 0 <= j < l.len() && l[j] == first_visible(cs, mn, l, 0).unwrap()
            && crate::wm::model::visible(cs[l[j] as int], mn)
            && forall|i: int| 0 <= i < j ==> !crate::wm::model::visible(#[trigger] cs[l[i] as int], mn);
        assert(j <= x);
        if j == p {
            assert(x > p);
        }
    }
}

/// `first_visible` from position `i` names the first client at or after
/// `i` that shows, when one does, and nothing otherwise.
proof fn lemma_first_visible_at(cs: Seq<crate::wm::model::Client>, mn: crate::wm::model::Monitor, l: Seq<usize>, i: int)
    requires
        0 <= i,
    ensures
        (exists|q: int| i <= q < l.len() && crate::wm::model::visible(cs[l[q] as int], mn)) ==> exists|j: int|
            i <= j < l.len() && l[j] == first_visible(cs, mn, l, i).unwrap()
            && first_visible(cs, mn, l, i) is Some
            && crate::wm::model::visible(cs[l[j] as int], mn)
            && forall|q: int| i <= q < j ==> !crate::wm::model::visible(#[trigger] cs[l[q] as int], mn),
        !(exists|q: int| i <= q < l.len() && crate::wm::model::visible(cs[l[q] as int], mn))
            ==> first_visible(cs, mn, l, i) is None,
    decreases l.len() - i,
{
    if i < l.len() {
        lemma_first_visible_at(cs, mn, l, i + 1);
        if !crate::wm::model::visible(cs[l[i] as int], mn) {
            if exists|q: int| i <= q < l.len() && crate::wm::model::visible(cs[l[q] as int], mn) {
                let q = choose|q: int| i <= q < l.len() && crate::wm::model::visible(cs[l[q] as int], mn);
                assert(i + 1 <= q);
            }
        } else {
            assert(first_visible(cs, mn, l, i) == Some(l[i]));
        }
    }
}

/// `needle` occurs in `hay` as a run of consecutive bytes.
pub open spec fn occurs_in(hay: Seq<u8>, needle: Seq<u8>) -> bool {
    exists|k: int| 0 <= k && k + needle.len() <= hay.len() && #[trigger] hay.subrange(k, k + needle.len()) == needle
}

/// The first zero byte from `j` on is at `e` when the bytes before it are
/// not zero.
proof fn lemma_nul_at(s: Seq<u8>, j: int, e: int)
    requires
        0 <= j <= e < s.len(),
        s[e] == 0,
        forall|q: int| j <= q < e ==> s[q] != 0,
    ensures
        nul_from(s, j) == e,
    decreases e - j,
{
    if j < e {
        lemma_nul_at(s, j + 1, e);
    }
}

/// A window rule that names only a class applies to a window exactly when
/// that class occurs in the class part (the second string) of its
/// `WM_CLASS` property, whatever its instance part and title are.
pub proof fn law_rule_class_matches_class_part(r: crate::wm::config::Rule, inst: Seq<u8>, cls: Seq<u8>, title: Seq<u8>)
    requires
        r.class is Some,
        r.instance is None,
        r.title is None,
        forall|q: int| 0 <= q < inst.len() ==> inst[q] != 0,
        forall|q: int| 0 <= q < cls.len() ==> cls[q] != 0,
    ensures
        ({
            let prop = inst + seq![0u8] + cls + seq![0u8];
            let names = split_class(prop);
            rule_applies(r, names.1, names.0, title) <==> occurs_in(cls, r.class.unwrap().spec_bytes())
        }),
{
    let prop = inst + seq![0u8] + cls + seq![0u8];
    let e = inst.len() as int;
    assert(prop[e] == 0);
    assert forall|q: int| 0 <= q < e implies prop[q] != 0 by {
        assert(prop[q] == inst[q]);
    }
    lemma_nul_at(prop, 0, e);
    let e2 = e + 1 + cls.len();
    assert(prop[e2] == 0);
    assert forall|q: int| e + 1 <= q < e2 implies prop[q] != 0 by {
        assert(prop[q] == cls[q - e - 1]);
    }
    lemma_nul_at(prop, e + 1, e2);
    assert(split_class(prop).1 =~= cls);
    let x = r.class.unwrap().spec_bytes();
    if text_contains(cls, x, false) {
        let i = choose|i: int| match_at(cls, x, i, false);
        assert(cls.subrange(i, i + x.len()) =~= x) by {
            assert forall|j: int| 0 <= j < x.len() implies cls.subrange(i, i + x.len())[j] == x[j] by {
                assert(crate::text::byte_eq(cls[i + j], x[j], false));
            }
        }
        assert(occurs_in(cls, x));
    }
    if occurs_in(cls, x) {
        let k = choose|k: int| 0 <= k && k + x.len() <= cls.len() && #[trigger] cls.subrange(k, k + x.len()) == x;
        assert forall|j: int| 0 <= j < x.len() implies crate::text::byte_eq(cls[k + j], #[trigger] x[j], false) by {
            assert(cls.subrange(k, k + x.len())[j] == x[j]);
        }
        assert(match_at(cls, x, k, false));
    }
}

/// Return without Shift prints the selected item's text, and with Shift
/// (or without a selection) the typed input, followed by a newline; the
/// menu then exits with status 0. Escape prints nothing and exits with 1.
pub proof fn law_finish_prints_choice(a: Menu, b: Menu, success: bool, use_sel: bool, out: Option<Vec<u8>>)
    requires
        finished(a, b, success, use_sel, out),
    ensures
        success && use_sel && a.sel is Some ==> (out matches Some(v)
            && v@ == a.items@[a.sel.unwrap() as int].text@ + seq![0x0au8]),
        success && !(use_sel && a.sel is Some) ==> (out matches Some(v) && v@ == a.text@ + seq![0x0au8]),
        !success ==> out is None,
        b.exit_code == Some(if success { 0u8 } else { 1u8 }),
{
    if success {
        let v = out.unwrap();
        if use_sel && a.sel is Some {
            assert(v@ =~= a.items@[a.sel.unwrap() as int].text@ + seq![0x0au8]);
        } else {
            assert(v@ =~= a.text@ + seq![0x0au8]);
        }
    }
}

/// Viewing a tag set other than the one shown switches the monitor to its
/// other tag-set slot, which then holds the asked set (or, asking for none,
/// the set shown before); so viewing `w` and then asking for the previous
/// set shows again what was shown at first.
pub proof fn law_view_switches_slot(a: crate::wm::model::Monitor, mn: crate::wm::model::Monitor, want: u32, bh: int)
    requires
        mn.seltags < 2,
        crate::wm::actions::viewed(a, mn, want, bh),
    ensures
        a.seltags == 1 - mn.seltags,
        a.tagset[a.seltags as int] == (if want != 0 { want } else { mn.tagset[1 - mn.seltags] }),
        a.tagset[1 - a.seltags] == mn.tagset[mn.seltags as int],
{
}

/// Viewing `w` and then the previous tag set shows what was shown before.
pub proof fn law_view_back_and_forth(a: crate::wm::model::Monitor, b: crate::wm::model::Monitor,
    mn: crate::wm::model::Monitor, w: u32, bh: int)
    requires
        mn.seltags < 2,
        w != 0,
        crate::wm::actions::viewed(a, mn, w, bh),
        crate::wm::actions::viewed(b, a, 0, bh),
    ensures
        b.tagset[b.seltags as int] == mn.tagset[mn.seltags as int],
        b.seltags == mn.seltags,
        a.tagset[a.seltags as int] == w,
{
    law_view_switches_slot(a, mn, w, bh);
    law_view_switches_slot(b, a, 0, bh);
}


/// Moving the focus backward from the client at position `p` of the list
/// `l`, when another client shows on the monitor, picks a client other
/// than the selected one that shows there: the last showing one before
/// position `p`, or, when none precedes, the last showing one of the list.
pub proof fn law_focus_backward(cs: Seq<crate::wm::model::Client>, mn: crate::wm::model::Monitor, l: Seq<usize>,
    p: int, x: int, dir: i32)
    requires
        crate::wm::model::distinct(l),
        0 <= p < l.len(),
        0 <= x < l.len(),
        x != p,
        crate::wm::model::visible(cs[l[x] as int], mn),
        dir <= 0,
    ensures
        stack_step(cs, mn, l, l[p], dir) matches Some(n) && n != l[p]
            && crate::wm::model::visible(cs[n as int], mn)
            && exists|j: int| 0 <= j < l.len() && l[j] == n
                && ((exists|i: int| 0 <= i < p && crate::wm::model::visible(cs[l[i] as int], mn))
                    ==> j < p && forall|i: int| j < i < p ==> !crate::wm::model::visible(#[trigger] cs[l[i] as int], mn))
                && (!(exists|i: int| 0 <= i < p && crate::wm::model::visible(cs[l[i] as int], mn))
                    ==> forall|i: int| j < i < l.len() ==> !crate::wm::model::visible(#[trigger] cs[l[i] as int], mn)),
{
    assert(l.contains(l[p]));
    lemma_pos(l, l[p]);
    assert(pos(l, l[p]) == p);
    if exists|i: int| 0 <= i < p && crate::wm::model::visible(cs[l[i] as int], mn) {
        lemma_last_visible_at(cs, mn, l, p);
    } else {
        lemma_last_visible_at(cs, mn, l, p);
        lemma_last_visible_at(cs, mn, l, l.len() as int);
        let j = choose|j: int| 0 <= j < l.len() && l[j] == last_visible(cs, mn, l, l.len() as int).unwrap()
            && crate::wm::model::visible(cs[l[j] as int], mn)
            && forall|q: int| j < q < l.len() ==> !crate::wm::model::visible(#[trigger] cs[l[q] as int], mn);
        assert(j >= x);
        if j == p {
            assert(x < p);
        }
    }
}

/// `last_visible` before position `p` names the last client before `p`
/// that shows, when one does, and nothing otherwise.
proof fn lemma_last_visible_at(cs: Seq<crate::wm::model::Client>, mn: crate::wm::model::Monitor, l: Seq<usize>, p: int)
    requires
        0 <= p <= l.len(),
    ensures
        (exists|q: int| 0 <= q < p && crate::wm::model::visible(cs[l[q] as int], mn)) ==> exists|j: int|
            0 <= j < p && l[j] == last_visible(cs, mn, l, p).unwrap()
            && last_visible(cs, mn, l, p) is Some
            && crate::wm::model::visible(cs[l[j] as int], mn)
            && forall|q: int| j < q < p ==> !crate::wm::model::visible(#[trigger] cs[l[q] as int], mn),
        !(exists|q: int| 0 <= q < p && crate::wm::model::visible(cs[l[q] as int], mn))
            ==> last_visible(cs, mn, l, p) is None,
    decreases p,
{
    if p > 0 {
        lemma_last_visible_at(cs, mn, l, p - 1);
        if !crate::wm::model::visible(cs[l[p - 1] as int], mn) {
            if exists|q: int| 0 <= q < p && crate::wm::model::visible(cs[l[q] as int], mn) {
                let q = choose|q: int| 0 <= q < p && crate::wm::model::visible(cs[l[q] as int], mn);
                assert(q < p - 1);
            }
        }
    }
}

/// The tile layout places the master client at the top left of the window
/// area, over its whole height and the master width (the whole width when
/// it is alone), and the stack column ends at the window area's right edge.
pub proof fn law_tile_master<A: Fn(crate::wm::model::Aspect, i32, i32) -> (i32, i32)>(aspect: &A,
    o: crate::wm::model::Wm, cs: Seq<crate::wm::model::Client>, m: usize, t: Seq<usize>, mw: int)
    requires
        tile_placed(aspect, o, cs, m, t, mw),
        t.len() > 0,
    ensures
        ({
            let mn = o.mons@[m as int];
            let c = o.clients@[t[0] as int];
            let f = cs[t[0] as int];
            &&& resize_result(aspect, c, mn, o.sw as int, o.sh as int, o.bh as int, mn.wx as int, mn.wy as int,
                (if t.len() == 1 { mn.ww as int } else { mw }) - 2 * c.bw, mn.wh - 2 * c.bw, false, f)
            &&& stack_x(mn, f, mw) + stack_w(mn, f, mw) == mn.wx + mn.ww
        }),
{
    reveal(crate::wm::layout::master_placed);
}

} // verus!
