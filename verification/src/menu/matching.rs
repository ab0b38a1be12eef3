//! Items, the three-way (exact, prefix, substring) matcher, and UTF-8
//! cursor stepping.

use vstd::prelude::*;
use crate::menu::state::{Menu, step_w, walk_next, walk_prev, linked, next_in, prev_in, first_of, last_of};
use crate::text::{text_equal, text_prefix, text_contains, match_at, matches_at, find_sub};

verus! {

/// One line read from standard input, linked into the current match list.
pub struct Item {
    pub text: Vec<u8>,
    pub left: Option<usize>,
    pub right: Option<usize>,
}

impl Default for Item {
    fn default() -> (r: Self)
        ensures
            r.text@ == Seq::<u8>::empty(),
            r.left is None,
            r.right is None,
    {
        Item { text: Vec::new(), left: None, right: None }
    }
}

/// The two byte strings are equal (ASCII case ignored when `ci`).
pub fn cmp_eq(a: &[u8], b: &[u8], ci: bool) -> (r: bool)
    ensures
        r == text_equal(a@, b@, ci),
{
    if a.len() != b.len() {
        return false;
    }
    matches_at(a, b, 0, ci)
}

/// `needle` is a prefix of `haystack` (ASCII case ignored when `ci`).
pub fn starts_with(haystack: &[u8], needle: &[u8], ci: bool) -> (r: bool)
    ensures
        r == text_prefix(haystack@, needle@, ci),
{
    if haystack.len() < needle.len() {
        return false;
    }
    matches_at(haystack, needle, 0, ci)
}

/// `needle` occurs in `haystack` (ASCII case ignored when `ci`); the empty
/// needle occurs everywhere.
pub fn contains_sub(haystack: &[u8], needle: &[u8], ci: bool) -> (r: bool)
    ensures
        r == text_contains(haystack@, needle@, ci),
        needle@.len() == 0 ==> r,
{
    if needle.len() == 0 {
        assert(match_at(haystack@, needle@, 0, ci));
        return true;
    }
    find_sub(haystack, needle, ci)
}

/// Appends item `idx` to the list whose head is `list` and whose tail is
/// `last`.
pub fn appenditem(items: &mut [Item], idx: usize, list: &mut Option<usize>, last: &mut Option<usize>)
    requires
        idx < old(items)@.len(),
        (*old(last)) is Some ==> old(last).unwrap() < old(items)@.len(),
    ensures
        final(items)@.len() == old(items)@.len(),
        *final(list) == (if (*old(last)) is None { Some(idx) } else { *old(list) }),
        *final(last) == Some(idx),
        final(items)@[idx as int].left == *old(last),
        final(items)@[idx as int].right is None,
        final(items)@[idx as int].text == old(items)@[idx as int].text,
        (*old(last)) is Some && old(last).unwrap() != idx ==> {
            &&& final(items)@[old(last).unwrap() as int].right == Some(idx)
            &&& final(items)@[old(last).unwrap() as int].left == old(items)@[old(last).unwrap() as int].left
            &&& final(items)@[old(last).unwrap() as int].text == old(items)@[old(last).unwrap() as int].text
        },
        forall|j: int|
            0 <= j < old(items)@.len() && j != idx && Some(j as usize) != *old(last)
                ==> final(items)@[j] == old(items)@[j],
{
    if last.is_none() {
        *list = Some(idx);
    } else if let Some(li) = *last {
        items[li].right = Some(idx);
    }
    items[idx].left = *last;
    items[idx].right = None;
    *last = Some(idx);
}

/// A UTF-8 continuation byte.
pub open spec fn is_cont(b: u8) -> bool {
    b & 0xc0 == 0x80
}

/// Where the cursor walk stops: position `n` ends it unless one more step
/// stays at or above zero, `n` is inside the text, and the byte there is a
/// continuation byte.
pub open spec fn rune_stop(text: Seq<u8>, n: int, inc: int) -> bool {
    !(n + inc >= 0 && n < text.len() && 0 <= n && is_cont(text[n]))
}

/// How far the walk from `n` can still go in the direction of `inc`.
pub open spec fn rune_measure(text: Seq<u8>, n: int, inc: int) -> int {
    if inc > 0 {
        if n < text.len() { text.len() - n } else { 0 }
    } else {
        if n > 0 { n } else { 0 }
    }
}

/// The position reached from `n` by stepping `inc` while the walk goes on.
pub open spec fn rune_walk(text: Seq<u8>, n: int, inc: int) -> int
    decreases rune_measure(text, n, inc),
{
    if inc == 0 || rune_stop(text, n, inc) {
        n
    } else {
        rune_walk(text, n + inc, inc)
    }
}

/// Moves the cursor by `inc` bytes, then on in the same direction over
/// UTF-8 continuation bytes.
pub fn nextrune(text: &[u8], cursor: usize, inc: i32) -> (r: isize)
    requires
        cursor <= text@.len(),
        text@.len() <= isize::MAX,
        text@.len() + 2 * (inc as int) <= isize::MAX,
        isize::MIN <= cursor + 2 * (inc as int),
        inc == 0 ==> rune_stop(text@, cursor as int, 0),
    ensures
        r == rune_walk(text@, cursor + inc, inc as int),
{
    let step = inc as isize;
    let mut n: isize = cursor as isize + step;
    if inc == 0 {
        return n;
    }
    while n + step >= 0 && (n as usize) < text.len() && (text[n as usize] & 0xc0) == 0x80
        invariant
            inc != 0,
            step == inc,
            cursor <= text@.len() <= isize::MAX,
            text@.len() + 2 * (inc as int) <= isize::MAX,
            isize::MIN <= cursor + 2 * (inc as int),
            inc > 0 ==> cursor + inc <= n <= text@.len() + inc,
            inc < 0 ==> n <= cursor + inc && (n >= 0 || n == cursor + inc),
            rune_walk(text@, n as int, inc as int) == rune_walk(text@, cursor + inc, inc as int),
        decreases rune_measure(text@, n as int, inc as int),
    {
        assert(!rune_stop(text@, n as int, inc as int));
        n += step;
    }
    assert(rune_stop(text@, n as int, inc as int)) by {
        if n >= 0 && n + step >= 0 && (n as usize) < text.len() {
        }
    }
    n
}


impl Menu {
    /// The width bound of one page, computed without overflow.
    fn page_bound_exec(&self) -> (n: i64)
        ensures
            n == self.page_bound(),
            -0x4000_0000_0000_0000 <= n <= 0x4000_0000_0000_0000,
    {
        if self.lines > 0 {
            let a = self.lines as i64;
            let b = self.bh as i64;
            assert(-0x4000_0000_0000_0000 <= a * b <= 0x4000_0000_0000_0000) by (nonlinear_arith)
                requires
                    0 < a <= 0x8000_0000,
                    -0x8000_0000 <= b <= 0x8000_0000,
            ;
            a * b
        } else {
            self.mw as i64 - (self.promptw as i64 + self.inputw as i64 + self.lt_w as i64
                + self.gt_w as i64)
        }
    }

    /// The space item `idx` takes on a page.
    fn step_exec(&self, idx: usize, n: i64) -> (r: i64)
        requires
            idx < self.item_w@.len(),
            n == self.page_bound(),
        ensures
            r == step_w(self.lines, self.bh, self.item_w@, self.page_bound(), idx),
            -0x4_0000_0000 <= r <= 0x8000_0000,
    {
        let w = self.item_w[idx];
        if self.lines > 0 {
            self.bh as i64
        } else if (w as i64) < n {
            w as i64
        } else {
            n
        }
    }

    /// Walks right from position `p` (the current item) to the first item
    /// that does not fit on the page.
    fn walk_next_exec(&self, n: i64, Ghost(p): Ghost<int>) -> (next: Option<usize>)
        requires
            linked(self.items@, self.match_list@),
            self.item_w@.len() == self.items@.len(),
            self.match_list@.len() <= self.items@.len(),
            n == self.page_bound(),
            -0x4000_0000_0000_0000 <= n <= 0x4000_0000_0000_0000,
            0 <= p < self.match_list@.len(),
            self.curr == Some(self.match_list@[p]),
        ensures
            next == walk_next(self.lines, self.bh, self.item_w@, self.page_bound(), self.match_list@, p, 0),
    {
        let ghost l = self.match_list@;
        let nitems = self.items.len();
        let mut i: i128 = 0;
        let mut next = self.curr;
        let ghost mut q: int = p;
        loop
            invariant
                linked(self.items@, l),
                l == self.match_list@,
                self.item_w@.len() == self.items@.len(),
                nitems == self.items@.len(),
                n == self.page_bound(),
                -0x4000_0000_0000_0000 <= n <= 0x4000_0000_0000_0000,
                0 <= p <= q <= l.len(),
                l.len() <= nitems,
                next == (if q < l.len() { Some(l[q]) } else { None }),
                walk_next(self.lines, self.bh, self.item_w@, n as int, l, p, 0) == walk_next(self.lines, self.bh, self.item_w@, n as int, l, q, i as int),
                i <= 0 || i <= n,
                -(q - p) * 0x4_0000_0000 <= i,
            decreases l.len() - q,
        {
            match next {
                None => {
                    return next;
                },
                Some(idx) => {
                    assert(l[q] == idx);
                    let inc = self.step_exec(idx, n);
                    i = i + inc as i128;
                    if i > n as i128 {
                        return next;
                    }
                    next = self.items[idx].right;
                    assert(next == next_in(l, q));
                    proof {
                        q = q + 1;
                    }
                },
            }
        }
    }

    /// Walks left from position `p` (the current item) to the first item
    /// of the previous page.
    fn walk_prev_exec(&self, n: i64, Ghost(p): Ghost<int>) -> (prev: Option<usize>)
        requires
            linked(self.items@, self.match_list@),
            self.item_w@.len() == self.items@.len(),
            self.match_list@.len() <= self.items@.len(),
            n == self.page_bound(),
            -0x4000_0000_0000_0000 <= n <= 0x4000_0000_0000_0000,
            0 <= p < self.match_list@.len(),
            self.curr == Some(self.match_list@[p]),
        ensures
            prev == Some(self.match_list@[walk_prev(self.lines, self.bh, self.item_w@, self.page_bound(), self.match_list@, p, 0)]),
    {
        let ghost l = self.match_list@;
        let nitems = self.items.len();
        let mut i: i128 = 0;
        let mut cur: usize = self.curr.unwrap();
        let ghost mut q: int = p;
        loop
            invariant
                linked(self.items@, l),
                l == self.match_list@,
                self.item_w@.len() == self.items@.len(),
                nitems == self.items@.len(),
                n == self.page_bound(),
                -0x4000_0000_0000_0000 <= n <= 0x4000_0000_0000_0000,
                0 <= q <= p < l.len(),
                l.len() <= nitems,
                cur == l[q],
                walk_prev(self.lines, self.bh, self.item_w@, n as int, l, p, 0) == walk_prev(self.lines, self.bh, self.item_w@, n as int, l, q, i as int),
                i <= 0 || i <= n,
                -(p - q) * 0x4_0000_0000 <= i,
            decreases q,
        {
            assert(self.items@[l[q] as int].left == prev_in(l, q));
            match self.items[cur].left {
                None => {
                    assert(q == 0);
                    return Some(cur);
                },
                Some(li) => {
                    assert(q > 0 && li == l[q - 1]);
                    let inc = self.step_exec(li, n);
                    i = i + inc as i128;
                    if i > n as i128 {
                        return Some(cur);
                    }
                    cur = li;
                    proof {
                        q = q - 1;
                    }
                },
            }
        }
    }

    /// Everything but `prev` and `next` is as in `m`.
    pub open spec fn same_but_offsets(&self, m: Menu) -> bool {
        *self == (Menu { next: self.next, prev: self.prev, ..m })
    }

    /// Recomputes the neighbouring pages: `next` is the first item after
    /// the page that starts at `curr`, `prev` the first item of the page
    /// before it.
    #[verifier::rlimit(40)]
    pub fn calcoffsets(&mut self)
        requires
            old(self).wf_links(),
        ensures
            final(self).wf(),
            final(self).offsets_ok(),
            final(self).same_but_offsets(*old(self)),
    {
        let n = self.page_bound_exec();
        match self.curr {
            None => {
                self.next = None;
                self.prev = None;
            },
            Some(c) => {
                let ghost l = self.match_list@;
                let ghost p = self.pos_of(c);
                assert(l.contains(c));
                assert(0 <= p < l.len() && l[p] == c);
                let next = self.walk_next_exec(n, Ghost(p));
                let prev = self.walk_prev_exec(n, Ghost(p));
                self.next = next;
                self.prev = prev;
                proof {
                    let b = self.page_bound();
                    lemma_walk_prev_range(self.lines, self.bh, self.item_w@, b, l, p, 0);
                    lemma_walk_next_in(self.lines, self.bh, self.item_w@, b, l, p, 0);
                    assert(l.contains(l[walk_prev(self.lines, self.bh, self.item_w@, b, l, p, 0)]));
                }
            },
        }
    }
}

/// The previous-page walk ends between 0 and its start.
pub(crate) proof fn lemma_walk_prev_range(lines: i32, bh: i32, widths: Seq<i32>, bound: int, l: Seq<usize>, q: int, acc: int)
    requires
        q >= 0,
    ensures
        0 <= walk_prev(lines, bh, widths, bound, l, q, acc) <= q,
    decreases q,
{
    if q > 0 && !(acc + step_w(lines, bh, widths, bound, l[q - 1]) > bound) {
        lemma_walk_prev_range(lines, bh, widths, bound, l, q - 1, acc + step_w(lines, bh, widths, bound, l[q - 1]));
    }
}

/// The next-page walk ends on an element of the list.
pub(crate) proof fn lemma_walk_next_in(lines: i32, bh: i32, widths: Seq<i32>, bound: int, l: Seq<usize>, q: int, acc: int)
    ensures
        walk_next(lines, bh, widths, bound, l, q, acc) matches Some(x) ==> l.contains(x),
    decreases l.len() - q,
{
    if 0 <= q < l.len() {
        if acc + step_w(lines, bh, widths, bound, l[q]) > bound {
            assert(l[q] == l[q]);
        } else {
            lemma_walk_next_in(lines, bh, widths, bound, l, q + 1, acc + step_w(lines, bh, widths, bound, l[q]));
        }
    }
}


/// How an item's text relates to the input: 0 equal, 1 starts with it,
/// 2 contains it, 3 none of these.
pub open spec fn match_class(t: Seq<u8>, needle: Seq<u8>, ci: bool) -> int {
    if text_equal(t, needle, ci) {
        0
    } else if text_prefix(t, needle, ci) {
        1
    } else if text_contains(t, needle, ci) {
        2
    } else {
        3
    }
}

/// The class of `t` against the input `needle`: equal, prefix, substring
/// or none.
fn classify(t: &[u8], needle: &[u8], ci: bool) -> (c: u8)
    ensures
        c == match_class(t@, needle@, ci),
{
    if cmp_eq(t, needle, ci) {
        0
    } else if starts_with(t, needle, ci) {
        1
    } else if contains_sub(t, needle, ci) {
        2
    } else {
        3
    }
}

/// The elements of `order` whose text is of class `c`, in order.
pub open spec fn select(order: Seq<usize>, texts: Seq<Seq<u8>>, needle: Seq<u8>, ci: bool, c: int) -> Seq<usize>
    decreases order.len(),
{
    if order.len() == 0 {
        Seq::empty()
    } else {
        let rest = select(order.drop_last(), texts, needle, ci, c);
        if match_class(texts[order.last() as int], needle, ci) == c {
            rest.push(order.last())
        } else {
            rest
        }
    }
}

/// The new match list: exact matches, then prefix matches, then substring
/// matches, each in the order of `order`.
pub open spec fn match_order(order: Seq<usize>, texts: Seq<Seq<u8>>, needle: Seq<u8>, ci: bool) -> Seq<usize> {
    select(order, texts, needle, ci, 0) + select(order, texts, needle, ci, 1) + select(order, texts, needle, ci, 2)
}

/// All item indices in order.
pub open spec fn all_items(n: nat) -> Seq<usize> {
    Seq::new(n, |i: int| i as usize)
}

/// No element occurs twice.
pub open spec fn distinct(l: Seq<usize>) -> bool {
    forall|a: int, b: int| 0 <= a < b < l.len() ==> l[a] != l[b]
}

/// What `select` keeps comes from `order` and is of class `c`; it is
/// duplicate-free when `order` is.
proof fn lemma_select(order: Seq<usize>, texts: Seq<Seq<u8>>, needle: Seq<u8>, ci: bool, c: int)
    ensures
        forall|k: int| 0 <= k < select(order, texts, needle, ci, c).len() ==> {
            &&& order.contains(#[trigger] select(order, texts, needle, ci, c)[k])
            &&& match_class(texts[select(order, texts, needle, ci, c)[k] as int], needle, ci) == c
        },
        distinct(order) ==> distinct(select(order, texts, needle, ci, c)),
    decreases order.len(),
{
    if order.len() > 0 {
        let o2 = order.drop_last();
        lemma_select(o2, texts, needle, ci, c);
        let r = select(order, texts, needle, ci, c);
        let r2 = select(o2, texts, needle, ci, c);
        assert forall|k: int| 0 <= k < r2.len() implies order.contains(r2[k]) by {
            assert(o2.contains(r2[k]));
            let j = choose|j: int| 0 <= j < o2.len() && o2[j] == r2[k];
            assert(order[j] == r2[k]);
        }
        assert(order.contains(order.last())) by {
            assert(order[order.len() - 1] == order.last());
        }
        if distinct(order) {
            assert(distinct(o2)) by {
                assert forall|a: int, b: int| 0 <= a < b < o2.len() implies o2[a] != o2[b] by {
                    assert(order[a] != order[b]);
                }
            }
            assert forall|k: int| 0 <= k < r2.len() implies r2[k] != order.last() by {
                let j = choose|j: int| 0 <= j < o2.len() && o2[j] == r2[k];
                assert(order[j] != order[order.len() - 1]);
            }
        }
    }
}

/// The three selections together are no longer than `order`.
proof fn lemma_select_len(order: Seq<usize>, texts: Seq<Seq<u8>>, needle: Seq<u8>, ci: bool)
    ensures
        match_order(order, texts, needle, ci).len() <= order.len(),
    decreases order.len(),
{
    if order.len() > 0 {
        lemma_select_len(order.drop_last(), texts, needle, ci);
    }
}

/// The three selections are pairwise disjoint, duplicate-free when the
/// order is, and name elements of the order.
proof fn lemma_classes_disjoint(order: Seq<usize>, texts: Seq<Seq<u8>>, needle: Seq<u8>, ci: bool)
    ensures
        ({
            let e = select(order, texts, needle, ci, 0);
            let p = select(order, texts, needle, ci, 1);
            let s = select(order, texts, needle, ci, 2);
            &&& forall|i: int, j: int| 0 <= i < e.len() && 0 <= j < p.len() ==> e[i] != p[j]
            &&& forall|i: int, j: int| 0 <= i < e.len() && 0 <= j < s.len() ==> e[i] != s[j]
            &&& forall|i: int, j: int| 0 <= i < p.len() && 0 <= j < s.len() ==> p[i] != s[j]
            &&& forall|i: int, j: int| 0 <= i < (e + p).len() && 0 <= j < s.len() ==> (e + p)[i] != s[j]
            &&& forall|i: int| 0 <= i < (e + p + s).len() ==> order.contains(#[trigger] (e + p + s)[i])
            &&& distinct(order) ==> distinct(e) && distinct(p) && distinct(s)
        }),
{
    let e = select(order, texts, needle, ci, 0);
    let p = select(order, texts, needle, ci, 1);
    let s = select(order, texts, needle, ci, 2);
    lemma_select(order, texts, needle, ci, 0);
    lemma_select(order, texts, needle, ci, 1);
    lemma_select(order, texts, needle, ci, 2);
    assert forall|i: int, j: int| 0 <= i < e.len() && 0 <= j < p.len() implies e[i] != p[j] by {
        if e[i] == p[j] {
            assert(match_class(texts[e[i] as int], needle, ci) == 0);
        }
    }
    assert forall|i: int, j: int| 0 <= i < e.len() && 0 <= j < s.len() implies e[i] != s[j] by {
        if e[i] == s[j] {
            assert(match_class(texts[e[i] as int], needle, ci) == 0);
        }
    }
    assert forall|i: int, j: int| 0 <= i < p.len() && 0 <= j < s.len() implies p[i] != s[j] by {
        if p[i] == s[j] {
            assert(match_class(texts[p[i] as int], needle, ci) == 1);
        }
    }
    assert forall|i: int, j: int| 0 <= i < (e + p).len() && 0 <= j < s.len() implies (e + p)[i] != s[j] by {
        if i < e.len() {
            assert((e + p)[i] == e[i]);
        } else {
            assert((e + p)[i] == p[i - e.len()]);
        }
    }
    assert forall|i: int| 0 <= i < (e + p + s).len() implies order.contains(#[trigger] (e + p + s)[i]) by {
        if i < e.len() {
            assert((e + p + s)[i] == e[i]);
        } else if i < e.len() + p.len() {
            assert((e + p + s)[i] == p[i - e.len()]);
        } else {
            assert((e + p + s)[i] == s[i - e.len() - p.len()]);
        }
    }
}

/// Links of items outside `l` do not matter to `l`.
proof fn lemma_linked_frame(a: Seq<Item>, b: Seq<Item>, l: Seq<usize>)
    requires
        linked(a, l),
        a.len() == b.len(),
        forall|k: int| 0 <= k < l.len() ==> b[#[trigger] l[k] as int].left == a[l[k] as int].left
            && b[l[k] as int].right == a[l[k] as int].right,
    ensures
        linked(b, l),
{
}

/// Appending a fresh item to a linked list.
proof fn lemma_linked_push(a: Seq<Item>, b: Seq<Item>, l: Seq<usize>, idx: usize)
    requires
        linked(a, l),
        a.len() == b.len(),
        (idx as int) < a.len(),
        !l.contains(idx),
        b[idx as int].left == last_of(l),
        b[idx as int].right is None,
        l.len() > 0 ==> b[l.last() as int].right == Some(idx) && b[l.last() as int].left == a[l.last() as int].left,
        forall|j: int| 0 <= j < a.len() && j != idx && (l.len() == 0 || j != l.last()) ==>
            b[j].left == a[j].left && b[j].right == a[j].right,
    ensures
        linked(b, l.push(idx)),
{
    let l2 = l.push(idx);
    assert forall|k: int| 0 <= k < l2.len() implies b[#[trigger] l2[k] as int].right == next_in(l2, k)
        && b[l2[k] as int].left == prev_in(l2, k) by {
        if k < l.len() {
            assert(l2[k] == l[k]);
            if k + 1 < l.len() {
                assert(l[k] != l.last());
            }
        }
    }
    assert forall|x: int, y: int| 0 <= x < y < l2.len() implies l2[x] != l2[y] by {
        if y == l.len() {
            assert(l.contains(l[x]));
        }
    }
}

/// Chaining list `b` behind list `a`.
proof fn lemma_linked_join(a0: Seq<Item>, a1: Seq<Item>, x: Seq<usize>, y: Seq<usize>)
    requires
        linked(a0, x),
        linked(a0, y),
        forall|i: int, j: int| 0 <= i < x.len() && 0 <= j < y.len() ==> x[i] != y[j],
        a0.len() == a1.len(),
        x.len() > 0,
        y.len() > 0,
        a1[x.last() as int].right == Some(y[0]),
        a1[x.last() as int].left == a0[x.last() as int].left,
        a1[y[0] as int].left == Some(x.last()),
        a1[y[0] as int].right == a0[y[0] as int].right,
        forall|j: int| 0 <= j < a0.len() && j != x.last() && j != y[0] ==>
            a1[j].left == a0[j].left && a1[j].right == a0[j].right,
    ensures
        linked(a1, x + y),
{
    let z = x + y;
    assert(x.last() != y[0]);
    assert forall|k: int| 0 <= k < z.len() implies a1[#[trigger] z[k] as int].right == next_in(z, k)
        && a1[z[k] as int].left == prev_in(z, k) by {
        if k < x.len() {
            assert(z[k] == x[k]);
            if k != x.len() - 1 {
                assert(x[k] != x.last());
            }
            assert(x[k] != y[0]);
        } else {
            assert(z[k] == y[k - x.len()]);
            if k != x.len() {
                assert(y[k - x.len()] != y[0]);
            }
            assert(y[k - x.len()] != x.last());
        }
    }
    assert forall|i: int, j: int| 0 <= i < j < z.len() implies z[i] != z[j] by {
        if j < x.len() {
        } else if i >= x.len() {
            assert(z[i] == y[i - x.len()]);
            assert(z[j] == y[j - x.len()]);
        } else {
            assert(z[j] == y[j - x.len()]);
        }
    }
}

impl Menu {
    /// Everything but the item links and the match list state is as in `m`,
    /// and the item texts are unchanged.
    pub open spec fn same_but_matches(&self, m: Menu) -> bool {
        &&& self.items@.len() == m.items@.len()
        &&& self.texts() == m.texts()
        &&& self.item_w == m.item_w
        &&& self.text == m.text
        &&& self.cursor == m.cursor
        &&& self.exit_code == m.exit_code
        &&& self.lines == m.lines
        &&& self.case_insensitive == m.case_insensitive
        &&& self.mw == m.mw
        &&& self.mh == m.mh
        &&& self.bh == m.bh
        &&& self.inputw == m.inputw
        &&& self.promptw == m.promptw
        &&& self.lt_w == m.lt_w
        &&& self.gt_w == m.gt_w
    }

    /// The current match list as a vector.
    fn match_vec(&self) -> (v: Vec<usize>)
        requires
            linked(self.items@, self.match_list@),
            self.matches == first_of(self.match_list@),
        ensures
            v@ == self.match_list@,
    {
        let ghost l = self.match_list@;
        let mut v: Vec<usize> = Vec::new();
        let mut cur = self.matches;
        let ghost mut k: int = 0;
        loop
            invariant
                l == self.match_list@,
                linked(self.items@, l),
                0 <= k <= l.len(),
                v@ == l.take(k),
                cur == (if k < l.len() { Some(l[k]) } else { None }),
            decreases l.len() - k,
        {
            match cur {
                None => {
                    assert(k == l.len());
                    assert(l.take(k) =~= l);
                    return v;
                },
                Some(i) => {
                    v.push(i);
                    assert(self.items@[l[k] as int].right == next_in(l, k));
                    cur = self.items[i].right;
                    proof {
                        assert(l.take(k + 1) =~= l.take(k).push(l[k]));
                        k = k + 1;
                    }
                },
            }
        }
    }

    /// Sorts the items named by `order` into three linked lists: exact,
    /// prefix and substring matches of the input. Returns the head and tail
    /// of each.
    #[verifier::rlimit(40)]
    fn split_matches(&mut self, order: &Vec<usize>) -> (r: (Option<usize>, Option<usize>, Option<usize>, Option<usize>, Option<usize>, Option<usize>))
        requires
            distinct(order@),
            forall|j: int| 0 <= j < order@.len() ==> (order@[j] as int) < old(self).items@.len(),
        ensures
            *final(self) == (Menu { items: final(self).items, ..*old(self) }),
            final(self).items@.len() == old(self).items@.len(),
            forall|j: int| 0 <= j < old(self).items@.len() ==> (#[trigger] final(self).items@[j]).text == old(self).items@[j].text,
            linked(final(self).items@, select(order@, old(self).texts(), old(self).text@, old(self).case_insensitive, 0)),
            linked(final(self).items@, select(order@, old(self).texts(), old(self).text@, old(self).case_insensitive, 1)),
            linked(final(self).items@, select(order@, old(self).texts(), old(self).text@, old(self).case_insensitive, 2)),
            r.0 == first_of(select(order@, old(self).texts(), old(self).text@, old(self).case_insensitive, 0)),
            r.1 == last_of(select(order@, old(self).texts(), old(self).text@, old(self).case_insensitive, 0)),
            r.2 == first_of(select(order@, old(self).texts(), old(self).text@, old(self).case_insensitive, 1)),
            r.3 == last_of(select(order@, old(self).texts(), old(self).text@, old(self).case_insensitive, 1)),
            r.4 == first_of(select(order@, old(self).texts(), old(self).text@, old(self).case_insensitive, 2)),
            r.5 == last_of(select(order@, old(self).texts(), old(self).text@, old(self).case_insensitive, 2)),
    {
        let ghost m0 = *self;
        let ghost texts = self.texts();
        let ghost ord = order@;
        let nitems = self.items.len();
        let ci = self.case_insensitive;
        let ghost needle = self.text@;
        let mut lexact: Option<usize> = None;
        let mut lprefix: Option<usize> = None;
        let mut lsubstr: Option<usize> = None;
        let mut exactend: Option<usize> = None;
        let mut prefixend: Option<usize> = None;
        let mut substrend: Option<usize> = None;
        let ghost mut le: Seq<usize> = Seq::empty();
        let ghost mut lp: Seq<usize> = Seq::empty();
        let ghost mut ls: Seq<usize> = Seq::empty();
        let mut k: usize = 0;
        while k < order.len()
            invariant
                texts == m0.texts(),
                texts.len() == nitems,
                m0.items@.len() == nitems,
                needle == m0.text@,
                ci == m0.case_insensitive,
                ord == order@,
                distinct(ord),
                forall|j: int| 0 <= j < ord.len() ==> (ord[j] as int) < nitems,
                k <= ord.len(),
                nitems == self.items@.len(),
                *self == (Menu { items: self.items, ..m0 }),
                forall|j: int| 0 <= j < nitems ==> (#[trigger] self.items@[j]).text == m0.items@[j].text,
                le == select(ord.take(k as int), texts, needle, ci, 0),
                lp == select(ord.take(k as int), texts, needle, ci, 1),
                ls == select(ord.take(k as int), texts, needle, ci, 2),
                linked(self.items@, le),
                linked(self.items@, lp),
                linked(self.items@, ls),
                lexact == first_of(le),
                exactend == last_of(le),
                lprefix == first_of(lp),
                prefixend == last_of(lp),
                lsubstr == first_of(ls),
                substrend == last_of(ls),
            decreases ord.len() - k,
        {
            let idx = order[k];
            assert((idx as int) < nitems);
            let ghost t = ord.take(k as int);
            let ghost t1 = ord.take(k as int + 1);
            proof {
                assert(t1.drop_last() =~= t);
                assert(t1.last() == idx);
                lemma_select(t, texts, needle, ci, 0);
                lemma_select(t, texts, needle, ci, 1);
                lemma_select(t, texts, needle, ci, 2);
                assert(!t.contains(idx)) by {
                    if t.contains(idx) {
                        let j = choose|j: int| 0 <= j < t.len() && t[j] == idx;
                        assert(ord[j] != ord[k as int]);
                    }
                }
                assert(texts[idx as int] == m0.items@[idx as int].text@);
                assert(self.items@[idx as int].text == m0.items@[idx as int].text);
            }
            let ghost items0 = self.items@;
            let class = classify(&self.items[idx].text, &self.text, ci);
            if class == 0 {
                appenditem(&mut self.items, idx, &mut lexact, &mut exactend);
                proof {
                    lemma_linked_push(items0, self.items@, le, idx);
                    lemma_linked_frame(items0, self.items@, lp);
                    lemma_linked_frame(items0, self.items@, ls);
                    le = le.push(idx);
                }
            } else if class == 1 {
                appenditem(&mut self.items, idx, &mut lprefix, &mut prefixend);
                proof {
                    lemma_linked_push(items0, self.items@, lp, idx);
                    lemma_linked_frame(items0, self.items@, le);
                    lemma_linked_frame(items0, self.items@, ls);
                    lp = lp.push(idx);
                }
            } else if class == 2 {
                appenditem(&mut self.items, idx, &mut lsubstr, &mut substrend);
                proof {
                    lemma_linked_push(items0, self.items@, ls, idx);
                    lemma_linked_frame(items0, self.items@, le);
                    lemma_linked_frame(items0, self.items@, lp);
                    ls = ls.push(idx);
                }
            }
            k += 1;
        }
        assert(ord.take(ord.len() as int) =~= ord);
        (lexact, exactend, lprefix, prefixend, lsubstr, substrend)

    }

    /// Chains the list `b` (head `head`, tail `tail`) behind the match list
    /// `a` that `matches` and `matchend` delimit.
    fn chain(&mut self, head: Option<usize>, tail: Option<usize>, Ghost(a): Ghost<Seq<usize>>,
        Ghost(b): Ghost<Seq<usize>>, Ghost(c): Ghost<Seq<usize>>)
        requires
            linked(old(self).items@, a),
            linked(old(self).items@, b),
            linked(old(self).items@, c),
            old(self).matches == first_of(a),
            old(self).matchend == last_of(a),
            head == first_of(b),
            tail == last_of(b),
            forall|i: int, j: int| 0 <= i < a.len() && 0 <= j < b.len() ==> a[i] != b[j],
            forall|i: int, j: int| 0 <= i < a.len() && 0 <= j < c.len() ==> a[i] != c[j],
            forall|i: int, j: int| 0 <= i < b.len() && 0 <= j < c.len() ==> b[i] != c[j],
        ensures
            *final(self) == (Menu { items: final(self).items, matches: final(self).matches,
                matchend: final(self).matchend, ..*old(self) }),
            final(self).items@.len() == old(self).items@.len(),
            forall|j: int| 0 <= j < old(self).items@.len() ==> (#[trigger] final(self).items@[j]).text == old(self).items@[j].text,
            linked(final(self).items@, a + b),
            linked(final(self).items@, c),
            final(self).matches == first_of(a + b),
            final(self).matchend == last_of(a + b),
    {
        if let Some(p) = head {
            assert(p == b[0]);
            if let Some(me) = self.matchend {
                assert(me == a.last());
                assert(a.contains(a.last()) && b.contains(b[0]));
                let ghost items0 = self.items@;
                self.items[me].right = Some(p);
                self.items[p].left = Some(me);
                proof {
                    lemma_linked_join(items0, self.items@, a, b);
                    assert forall|k: int| 0 <= k < c.len() implies c[k] != me && c[k] != p by {
                        assert(a[a.len() - 1] != c[k]);
                        assert(b[0] != c[k]);
                    }
                    lemma_linked_frame(items0, self.items@, c);
                }
            } else {
                self.matches = head;
                assert(a + b =~= b);
            }
            self.matchend = tail;
        } else {
            assert(a + b =~= a);
        }
    }

    /// Rebuilds the match list from the input: exact matches first, then
    /// prefix matches, then substring matches. With `sub` only the current
    /// matches are searched (the input grew at its end), else all items.
    /// The first match becomes current and selected, and the pages are
    /// recomputed.
    #[verifier::rlimit(100)]
    #[verifier::spinoff_prover]
    pub fn do_match(&mut self, sub: bool)
        requires
            old(self).wf(),
        ensures
            final(self).wf(),
            final(self).same_but_matches(*old(self)),
            final(self).match_list@ == match_order(
                if sub { old(self).match_list@ } else { all_items(old(self).items@.len()) },
                old(self).texts(), old(self).text@, old(self).case_insensitive),
            final(self).curr == final(self).matches,
            final(self).sel == final(self).matches,
            final(self).offsets_ok(),
    {
        let ghost m0 = *self;
        let ghost texts = self.texts();
        let nitems = self.items.len();

        let order: Vec<usize> = if sub {
            self.match_vec()
        } else {
            let mut v: Vec<usize> = Vec::new();
            let mut i: usize = 0;
            while i < nitems
                invariant
                    i <= nitems,
                    v@ == all_items(i as nat),
                decreases nitems - i,
            {
                v.push(i);
                i += 1;
                assert(v@ =~= all_items(i as nat));
            }
            v
        };
        let ghost ord = order@;
        assert(distinct(ord) && forall|k: int| 0 <= k < ord.len() ==> (ord[k] as int) < nitems) by {
            if !sub {
                assert forall|a: int, b: int| 0 <= a < b < ord.len() implies ord[a] != ord[b] by {}
            }
        }
        assert(ord.len() <= nitems);

        let (lexact, exactend, lprefix, prefixend, lsubstr, substrend) = self.split_matches(&order);
        let ghost needle = self.text@;
        let ghost ci = self.case_insensitive;
        let ghost le = select(ord, texts, needle, ci, 0);
        let ghost lp = select(ord, texts, needle, ci, 1);
        let ghost ls = select(ord, texts, needle, ci, 2);
        proof {
            lemma_select_len(ord, texts, needle, ci);
        }

        proof {
            lemma_classes_disjoint(ord, texts, needle, ci);
        }
        self.matches = lexact;
        self.matchend = exactend;
        self.chain(lprefix, prefixend, Ghost(le), Ghost(lp), Ghost(ls));
        self.chain(lsubstr, substrend, Ghost(le + lp), Ghost(ls), Ghost(Seq::empty()));
        let ghost lst = le + lp + ls;
        self.match_list = Ghost(lst);
        self.curr = self.matches;
        self.sel = self.matches;
        assert(self.texts() =~= texts);
        self.calcoffsets();
    }
}

} // verus!
