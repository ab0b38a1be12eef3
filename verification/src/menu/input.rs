//! Key handling: editing the input line, moving the selection, paging,
//! completion and finishing.

use vstd::prelude::*;
use crate::menu::keysyms::{
    XK_BACKSPACE, XK_TAB, XK_RETURN, XK_ESCAPE, XK_DELETE, XK_HOME, XK_LEFT, XK_UP, XK_RIGHT,
    XK_DOWN, XK_PRIOR, XK_NEXT, XK_END, XK_KP_ENTER,
};
use crate::menu::matching::{nextrune, rune_walk, rune_stop, match_order, all_items};
use crate::menu::state::{Menu, walk_next, walk_prev};

verus! {

/// A key press as the menu sees it: the keysym, the text it types, and
/// whether Control and Shift are held.
pub struct KeyInput {
    pub keysym: u32,
    pub utf8: Option<Vec<u8>>,
    pub ctrl: bool,
    pub shift: bool,
}

/// What a key press asks for once Control bindings are resolved.
pub enum KeyCommand {
    /// Control-K: cut the input after the cursor.
    KillToEnd,
    /// Control-U: cut the input before the cursor.
    KillLine,
    /// Control-W: cut the word before the cursor.
    KillWord,
    /// An unbound Control chord, or Control-Y.
    Ignore,
    /// A key to handle by its keysym.
    Key(u32),
}

/// `ks` is the letter whose lower-case keysym is `lower`, in either case.
pub open spec fn is_letter(ks: u32, lower: u32) -> bool {
    ks == lower || ks == lower - 0x20
}

/// The command for `keysym`: Control chords are Emacs-style editing keys.
pub open spec fn key_command(keysym: u32, ctrl: bool) -> KeyCommand {
    if !ctrl {
        KeyCommand::Key(keysym)
    } else if is_letter(keysym, 0x61) {
        KeyCommand::Key(XK_HOME)
    } else if is_letter(keysym, 0x62) {
        KeyCommand::Key(XK_LEFT)
    } else if is_letter(keysym, 0x63) {
        KeyCommand::Key(XK_ESCAPE)
    } else if is_letter(keysym, 0x64) {
        KeyCommand::Key(XK_DELETE)
    } else if is_letter(keysym, 0x65) {
        KeyCommand::Key(XK_END)
    } else if is_letter(keysym, 0x66) {
        KeyCommand::Key(XK_RIGHT)
    } else if is_letter(keysym, 0x68) {
        KeyCommand::Key(XK_BACKSPACE)
    } else if is_letter(keysym, 0x69) {
        KeyCommand::Key(XK_TAB)
    } else if is_letter(keysym, 0x6a) {
        KeyCommand::Key(XK_RETURN)
    } else if is_letter(keysym, 0x6b) {
        KeyCommand::KillToEnd
    } else if is_letter(keysym, 0x6e) {
        KeyCommand::Key(XK_DOWN)
    } else if is_letter(keysym, 0x70) {
        KeyCommand::Key(XK_UP)
    } else if is_letter(keysym, 0x75) {
        KeyCommand::KillLine
    } else if is_letter(keysym, 0x77) {
        KeyCommand::KillWord
    } else {
        KeyCommand::Ignore
    }
}

/// Resolves Control chords.
pub fn command_of(keysym: u32, ctrl: bool) -> (c: KeyCommand)
    ensures
        c == key_command(keysym, ctrl),
{
    if !ctrl {
        return KeyCommand::Key(keysym);
    }
    let is = |lower: u32| -> (r: bool)
        requires
            lower >= 0x20,
        ensures
            r == is_letter(keysym, lower),
        { keysym == lower || keysym == lower - 0x20 };
    if is(0x61) {
        KeyCommand::Key(XK_HOME)
    } else if is(0x62) {
        KeyCommand::Key(XK_LEFT)
    } else if is(0x63) {
        KeyCommand::Key(XK_ESCAPE)
    } else if is(0x64) {
        KeyCommand::Key(XK_DELETE)
    } else if is(0x65) {
        KeyCommand::Key(XK_END)
    } else if is(0x66) {
        KeyCommand::Key(XK_RIGHT)
    } else if is(0x68) {
        KeyCommand::Key(XK_BACKSPACE)
    } else if is(0x69) {
        KeyCommand::Key(XK_TAB)
    } else if is(0x6a) {
        KeyCommand::Key(XK_RETURN)
    } else if is(0x6b) {
        KeyCommand::KillToEnd
    } else if is(0x6e) {
        KeyCommand::Key(XK_DOWN)
    } else if is(0x70) {
        KeyCommand::Key(XK_UP)
    } else if is(0x75) {
        KeyCommand::KillLine
    } else if is(0x77) {
        KeyCommand::KillWord
    } else {
        KeyCommand::Ignore
    }
}

/// The cursor one character back.
pub open spec fn prev_rune(t: Seq<u8>, c: int) -> int {
    rune_walk(t, c - 1, -1)
}

/// The cursor one character on.
pub open spec fn next_rune(t: Seq<u8>, c: int) -> int {
    rune_walk(t, c + 1, 1)
}

proof fn lemma_walk_back(t: Seq<u8>, n: int)
    requires
        n >= 0,
    ensures
        0 <= rune_walk(t, n, -1) <= n,
    decreases n,
{
    if !rune_stop(t, n, -1) {
        lemma_walk_back(t, n - 1);
    }
}

proof fn lemma_walk_fwd(t: Seq<u8>, n: int)
    requires
        n <= t.len(),
    ensures
        n <= rune_walk(t, n, 1) <= t.len(),
    decreases t.len() - n,
{
    if !rune_stop(t, n, 1) {
        lemma_walk_fwd(t, n + 1);
    }
}

/// Stepping back from a cursor inside the text lands before it.
pub proof fn lemma_prev_rune(t: Seq<u8>, c: int)
    requires
        0 < c <= t.len(),
    ensures
        0 <= prev_rune(t, c) < c,
{
    lemma_walk_back(t, c - 1);
}

/// Stepping on from a cursor before the end lands after it, inside.
pub proof fn lemma_next_rune(t: Seq<u8>, c: int)
    requires
        0 <= c < t.len(),
    ensures
        c < next_rune(t, c) <= t.len(),
{
    lemma_walk_fwd(t, c + 1);
}

/// The larger of two integers.
pub open spec fn max0(a: int) -> int {
    if a < 0 { 0 } else { a }
}

/// An edit of `n` bytes keeps the input between 0 and 4096 bytes.
pub open spec fn edit_ok(t: Seq<u8>, n: int) -> bool {
    0 <= t.len() + n <= 4096
}

/// The input after inserting the first `n` bytes of `s` at the cursor
/// (`n` > 0) or cutting `-n` bytes before it (`n` < 0).
pub open spec fn edit_text(t: Seq<u8>, c: int, s: Seq<u8>, n: int) -> Seq<u8> {
    if n > 0 {
        t.take(c) + s.take(n) + t.skip(c)
    } else if n < 0 {
        t.take(max0(c + n)) + t.skip(c)
    } else {
        t
    }
}

/// The cursor after the same edit.
pub open spec fn edit_cursor(c: int, n: int) -> int {
    if n > 0 { c + n } else if n < 0 { max0(c + n) } else { c }
}

/// `b` is `a` with input `t`, cursor `c`, and the matches rebuilt from it
/// (among the current matches when `sub`); the first match is current and
/// selected.
pub open spec fn rematched(a: Menu, b: Menu, t: Seq<u8>, c: int, sub: bool) -> bool {
    &&& b.wf()
    &&& b.text@ == t
    &&& b.cursor == c
    &&& b.items@.len() == a.items@.len()
    &&& b.texts() == a.texts()
    &&& b.same_setup(a)
    &&& b.exit_code == a.exit_code
    &&& b.match_list@ == match_order(
        if sub { a.match_list@ } else { all_items(a.items@.len()) },
        a.texts(), t, a.case_insensitive)
    &&& b.curr == b.matches
    &&& b.sel == b.matches
    &&& b.offsets_ok()
}

/// `b` is `a` after the edit: unchanged if the edit would leave the input
/// out of bounds, else edited and rematched (among the current matches
/// when text was appended at the end).
pub open spec fn inserted(a: Menu, b: Menu, s: Seq<u8>, n: int) -> bool {
    if !edit_ok(a.text@, n) {
        b == a
    } else {
        rematched(a, b, edit_text(a.text@, a.cursor as int, s, n), edit_cursor(a.cursor as int, n),
            n > 0 && edit_cursor(a.cursor as int, n) == edit_text(a.text@, a.cursor as int, s, n).len())
    }
}

/// `b` is `a` with current item `curr`, selection `sel` and the pages
/// recomputed.
pub open spec fn repaged(a: Menu, b: Menu, curr: Option<usize>, sel: Option<usize>) -> bool {
    &&& b.wf()
    &&& b.offsets_ok()
    &&& b.same_but_offsets(Menu { curr: curr, sel: sel, ..a })
}

/// Concatenations of three byte strings.
fn splice(a: &[u8], a_end: usize, b: &[u8], b_end: usize, c: &[u8], c_start: usize) -> (r: Vec<u8>)
    requires
        a_end <= a@.len(),
        b_end <= b@.len(),
        c_start <= c@.len(),
    ensures
        r@ == a@.take(a_end as int) + b@.take(b_end as int) + c@.skip(c_start as int),
{
    let mut r: Vec<u8> = Vec::new();
    let mut i: usize = 0;
    while i < a_end
        invariant
            i <= a_end <= a@.len(),
            r@ == a@.take(i as int),
        decreases a_end - i,
    {
        r.push(a[i]);
        i += 1;
        assert(r@ =~= a@.take(i as int));
    }
    let mut j: usize = 0;
    while j < b_end
        invariant
            j <= b_end <= b@.len(),
            r@ == a@.take(a_end as int) + b@.take(j as int),
        decreases b_end - j,
    {
        r.push(b[j]);
        j += 1;
        assert(r@ =~= a@.take(a_end as int) + b@.take(j as int));
    }
    let clen = c.len();
    let mut k: usize = c_start;
    while k < clen
        invariant
            c_start <= k <= clen,
            clen == c@.len(),
            r@ == a@.take(a_end as int) + b@.take(b_end as int) + c@.subrange(c_start as int, k as int),
        decreases clen - k,
    {
        r.push(c[k]);
        k += 1;
        assert(r@ =~= a@.take(a_end as int) + b@.take(b_end as int) + c@.subrange(c_start as int, k as int));
    }
    assert(c@.subrange(c_start as int, clen as int) =~= c@.skip(c_start as int));
    r
}

/// Inserts the first `n` bytes of `s` at the cursor, or cuts `-n` bytes
/// before it, unless the input would leave 0 to 4096 bytes; then
/// rematches.
pub fn insert_text(menu: &mut Menu, s: &[u8], n: isize)
    requires
        old(menu).wf(),
        n > 0 ==> n <= s@.len(),
        old(menu).text@.len() + n <= isize::MAX,
    ensures
        inserted(*old(menu), *final(menu), s@, n as int),
{
    let cur_len = menu.text.len() as isize;
    if cur_len + n < 0 || cur_len + n > 4096 {
        return;
    }
    let ghost a = *menu;
    if n > 0 {
        let t = splice(&menu.text, menu.cursor, s, n as usize, &menu.text, menu.cursor);
        menu.text = t;
        menu.cursor = menu.cursor + n as usize;
    } else if n < 0 {
        let del = (-n) as usize;
        let start: usize = if menu.cursor >= del { menu.cursor - del } else { 0 };
        let empty: Vec<u8> = Vec::new();
        let t = splice(&menu.text, start, &empty, 0, &menu.text, menu.cursor);
        menu.text = t;
        menu.cursor = start;
    }
    assert(menu.text@ =~= edit_text(a.text@, a.cursor as int, s@, n as int));
    let sub = n > 0 && menu.cursor == menu.text.len();
    menu.do_match(sub);
}

/// Moves the selection one item left; the page turns back when the
/// selection leaves it.
pub fn handle_up(menu: &mut Menu)
    requires
        old(menu).wf(),
    ensures
        up_effect(*old(menu), *final(menu)),
{
    if let Some(s) = menu.sel {
        if let Some(l) = menu.items[s].left {
            proof {
                lemma_list_neighbours(*menu, s);
            }
            menu.sel = Some(l);
            if menu.items[l].right == menu.curr {
                menu.curr = menu.prev;
                menu.calcoffsets();
            }
        }
    }
}

/// Moves the selection one item right; the page turns on when the
/// selection leaves it.
pub fn handle_down(menu: &mut Menu)
    requires
        old(menu).wf(),
    ensures
        down_effect(*old(menu), *final(menu)),
{
    if let Some(s) = menu.sel {
        if let Some(r) = menu.items[s].right {
            proof {
                lemma_list_neighbours(*menu, s);
            }
            menu.sel = Some(r);
            if Some(r) == menu.next {
                menu.curr = menu.next;
                menu.calcoffsets();
            }
        }
    }
}

/// The neighbours of a listed item are listed.
proof fn lemma_list_neighbours(m: Menu, s: usize)
    requires
        m.wf(),
        m.match_list@.contains(s),
    ensures
        (s as int) < m.items@.len(),
        m.items@[s as int].left matches Some(l) ==> m.match_list@.contains(l) && (l as int) < m.items@.len()
            && m.items@[l as int].right == Some(s),
        m.items@[s as int].right matches Some(r) ==> m.match_list@.contains(r) && (r as int) < m.items@.len(),
{
    let l = m.match_list@;
    let p = choose|p: int| 0 <= p < l.len() && l[p] == s;
    assert(m.items@[l[p] as int].left == crate::menu::state::prev_in(l, p));
    assert(m.items@[l[p] as int].right == crate::menu::state::next_in(l, p));
    if p > 0 {
        assert(l.contains(l[p - 1]));
        assert(m.items@[l[p - 1] as int].right == crate::menu::state::next_in(l, p - 1));
    }
    if p + 1 < l.len() {
        assert(l.contains(l[p + 1]));
    }
}

/// What moving up does.
pub open spec fn up_effect(a: Menu, b: Menu) -> bool {
    match a.sel {
        None => b == a,
        Some(s) => match a.items@[s as int].left {
            None => b == a,
            Some(l) => if a.items@[l as int].right == a.curr {
                repaged(a, b, a.prev, Some(l))
            } else {
                b == (Menu { sel: Some(l), ..a })
            },
        },
    }
}

/// What moving down does.
pub open spec fn down_effect(a: Menu, b: Menu) -> bool {
    match a.sel {
        None => b == a,
        Some(s) => match a.items@[s as int].right {
            None => b == a,
            Some(r) => if Some(r) == a.next {
                repaged(a, b, a.next, Some(r))
            } else {
                b == (Menu { sel: Some(r), ..a })
            },
        },
    }
}

/// The text printed on success: the selected item's, unless there is none
/// or `use_sel` is off, then the input.
pub open spec fn chosen_text(a: Menu, use_sel: bool) -> Seq<u8> {
    if use_sel && a.sel is Some {
        a.items@[a.sel.unwrap() as int].text@
    } else {
        a.text@
    }
}

/// What finishing does: set the exit status (0 on success, else 1) and,
/// on success, hand back the chosen text and a newline to print.
pub open spec fn finished(a: Menu, b: Menu, success: bool, use_sel: bool, out: Option<Vec<u8>>) -> bool {
    &&& b == (Menu { exit_code: Some(if success { 0u8 } else { 1u8 }), ..a })
    &&& success ==> (out matches Some(v) && v@ == chosen_text(a, use_sel).push(0x0a))
    &&& !success ==> out is None
}

/// Ends the menu: on success the chosen text is returned to be printed.
pub fn finish(menu: &mut Menu, success: bool, use_sel: bool) -> (out: Option<Vec<u8>>)
    requires
        old(menu).wf(),
    ensures
        finished(*old(menu), *final(menu), success, use_sel, out),
{
    let out = if success {
        let mut o = if use_sel {
            match menu.sel {
                Some(idx) => {
                    proof {
                        lemma_list_neighbours(*menu, idx);
                    }
                    menu.items[idx].text.clone()
                },
                None => menu.text.clone(),
            }
        } else {
            menu.text.clone()
        };
        assert(o@ =~= chosen_text(*menu, use_sel));
        o.push(0x0a);
        Some(o)
    } else {
        None
    };
    menu.exit_code = Some(if success { 0 } else { 1 });
    out
}

/// The text contains a control character (U+0000 to U+001F, U+007F to
/// U+009F) in its UTF-8 encoding.
pub open spec fn has_control(v: Seq<u8>) -> bool {
    exists|i: int|
        0 <= i < v.len() && (#[trigger] v[i] < 0x20 || v[i] == 0x7f || (v[i] == 0xc2 && i + 1 < v.len()
            && 0x80 <= v[i + 1] <= 0x9f))
}

/// Whether typed text holds a control character.
pub fn has_control_char(v: &[u8]) -> (r: bool)
    ensures
        r == has_control(v@),
{
    let n = v.len();
    let mut i: usize = 0;
    while i < n
        invariant
            n == v@.len(),
            i <= n,
            forall|j: int| 0 <= j < i ==> !(#[trigger] v@[j] < 0x20 || v@[j] == 0x7f || (v@[j] == 0xc2
                && j + 1 < v@.len() && 0x80 <= v@[j + 1] <= 0x9f)),
        decreases n - i,
    {
        let b = v[i];
        if b < 0x20 || b == 0x7f || (b == 0xc2 && i + 1 < n && 0x80 <= v[i + 1] && v[i + 1] <= 0x9f) {
            return true;
        }
        i += 1;
    }
    false
}

/// Cutting one character before the cursor.
pub open spec fn cut_back(t: Seq<u8>, c: int) -> Seq<u8> {
    t.take(prev_rune(t, c)) + t.skip(c)
}

/// Cutting the spaces before the cursor, one character at a time.
pub open spec fn kill_spaces(t: Seq<u8>, c: int) -> (Seq<u8>, int)
    decreases c,
{
    if 0 < c <= t.len() && t[prev_rune(t, c)] == 0x20 {
        proof {
            lemma_prev_rune(t, c);
        }
        kill_spaces(cut_back(t, c), prev_rune(t, c))
    } else {
        (t, c)
    }
}

/// Cutting the non-space characters before the cursor, one at a time.
pub open spec fn kill_nonspaces(t: Seq<u8>, c: int) -> (Seq<u8>, int)
    decreases c,
{
    if 0 < c <= t.len() && t[prev_rune(t, c)] != 0x20 {
        proof {
            lemma_prev_rune(t, c);
        }
        kill_nonspaces(cut_back(t, c), prev_rune(t, c))
    } else {
        (t, c)
    }
}

/// The input and cursor after Control-W: the spaces before the cursor,
/// then the word before them, are cut.
pub open spec fn kill_word(t: Seq<u8>, c: int) -> (Seq<u8>, int) {
    kill_nonspaces(kill_spaces(t, c).0, kill_spaces(t, c).1)
}

/// What Control-W does: nothing when nothing is cut, else the cut input
/// is rematched.
pub open spec fn killed_word(a: Menu, b: Menu) -> bool {
    let k = kill_word(a.text@, a.cursor as int);
    if k.1 == a.cursor {
        b == a
    } else {
        rematched(a, b, k.0, k.1, false)
    }
}

/// The position where End lands: moving on from `q` while the page from
/// there does not reach the end of the list.
pub open spec fn settle(lines: i32, bh: i32, widths: Seq<i32>, bound: int, l: Seq<usize>, q: int) -> int
    decreases l.len() - q,
{
    if q < 0 || q + 1 >= l.len() || walk_next(lines, bh, widths, bound, l, q, 0) is None {
        q
    } else {
        settle(lines, bh, widths, bound, l, q + 1)
    }
}

/// What End does: the cursor goes to the end of the input; if it is there
/// already, the last page is shown and the last match selected.
pub open spec fn end_effect(a: Menu, b: Menu) -> bool {
    if a.cursor != a.text@.len() {
        b == (Menu { cursor: a.text@.len() as usize, ..a })
    } else if a.next is None {
        b == (Menu { sel: a.matchend, ..a })
    } else {
        let l = a.match_list@;
        let bound = a.page_bound();
        let q1 = walk_prev(a.lines, a.bh, a.item_w@, bound, l, l.len() - 1, 0);
        let q = settle(a.lines, a.bh, a.item_w@, bound, l, q1);
        repaged(a, b, Some(l[q]), a.matchend)
    }
}

/// What Delete does: the character after the cursor is cut.
pub open spec fn delete_effect(a: Menu, b: Menu) -> bool {
    if a.cursor < a.text@.len() {
        let c1 = next_rune(a.text@, a.cursor as int);
        inserted(Menu { cursor: c1 as usize, ..a }, b, Seq::empty(), prev_rune(a.text@, c1) - c1)
    } else {
        b == a
    }
}

/// What a key with keysym `ks` does.
pub open spec fn keysym_effect(a: Menu, b: Menu, ks: u32, k: KeyInput, out: Option<Vec<u8>>) -> bool {
    let t = a.text@;
    let c = a.cursor as int;
    if ks == XK_RETURN || ks == XK_KP_ENTER {
        finished(a, b, true, !k.shift, out)
    } else if ks == XK_ESCAPE {
        finished(a, b, false, false, out)
    } else {
        &&& out is None
        &&& if ks == XK_DELETE {
            delete_effect(a, b)
        } else if ks == XK_BACKSPACE {
            if c > 0 { inserted(a, b, Seq::empty(), prev_rune(t, c) - c) } else { b == a }
        } else if ks == XK_END {
            end_effect(a, b)
        } else if ks == XK_HOME {
            if a.sel == a.matches {
                b == (Menu { cursor: 0, ..a })
            } else {
                repaged(a, b, a.matches, a.matches)
            }
        } else if ks == XK_LEFT {
            if c > 0 && (a.sel is None || a.items@[a.sel.unwrap() as int].left is None || a.lines > 0) {
                b == (Menu { cursor: prev_rune(t, c) as usize, ..a })
            } else if a.lines == 0 {
                up_effect(a, b)
            } else {
                b == a
            }
        } else if ks == XK_UP {
            up_effect(a, b)
        } else if ks == XK_NEXT {
            match a.next {
                Some(n) => repaged(a, b, Some(n), Some(n)),
                None => b == a,
            }
        } else if ks == XK_PRIOR {
            match a.prev {
                Some(p) => repaged(a, b, Some(p), Some(p)),
                None => b == a,
            }
        } else if ks == XK_RIGHT {
            if c < t.len() {
                b == (Menu { cursor: next_rune(t, c) as usize, ..a })
            } else if a.lines == 0 {
                down_effect(a, b)
            } else {
                b == a
            }
        } else if ks == XK_DOWN {
            down_effect(a, b)
        } else if ks == XK_TAB {
            match a.sel {
                Some(s) => rematched(a, b, a.items@[s as int].text@, a.items@[s as int].text@.len() as int, true),
                None => b == a,
            }
        } else {
            match k.utf8 {
                Some(v) => if v@.len() > 0 && !has_control(v@) {
                    inserted(a, b, v@, v@.len() as int)
                } else {
                    b == a
                },
                None => b == a,
            }
        }
    }
}

/// What a key press does to the menu, and what it prints.
pub open spec fn key_effect(a: Menu, b: Menu, k: KeyInput, out: Option<Vec<u8>>) -> bool {
    match key_command(k.keysym, k.ctrl) {
        KeyCommand::KillToEnd => out is None && rematched(a, b, a.text@.take(a.cursor as int), a.cursor as int, false),
        KeyCommand::KillLine => out is None && inserted(a, b, Seq::empty(), -(a.cursor as int)),
        KeyCommand::KillWord => out is None && killed_word(a, b),
        KeyCommand::Ignore => out is None && b == a,
        KeyCommand::Key(ks) => keysym_effect(a, b, ks, k, out),
    }
}

/// The key press can be handled: Control-W cannot leave an input of more
/// than 4096 bytes (that would never stop), and typed text fits.
pub open spec fn key_ok(a: Menu, k: KeyInput) -> bool {
    &&& key_command(k.keysym, k.ctrl) is KillWord && a.cursor > 0
        ==> a.text@.len() - (a.cursor - prev_rune(a.text@, a.cursor as int)) <= 4096
    &&& k.utf8 matches Some(v) ==> a.text@.len() + v@.len() <= isize::MAX
}

/// Rematching after rematching from scratch is rematching from scratch.
proof fn lemma_rematch_trans(a: Menu, m: Menu, b: Menu, t1: Seq<u8>, c1: int, t2: Seq<u8>, c2: int)
    requires
        rematched(a, m, t1, c1, false),
        rematched(m, b, t2, c2, false),
    ensures
        rematched(a, b, t2, c2, false),
{
}

/// The position of a listed item is its index.
proof fn lemma_pos_of(m: Menu, q: int)
    requires
        m.wf(),
        0 <= q < m.match_list@.len(),
    ensures
        m.pos_of(m.match_list@[q]) == q,
{
    let l = m.match_list@;
    assert(l.contains(l[q]));
    let p = m.pos_of(l[q]);
    if p != q {
        if p < q {
            assert(l[p] != l[q]);
        } else {
            assert(l[q] != l[p]);
        }
    }
}

/// Control-W: cuts the spaces, then the word, before the cursor.
fn kill_word_back(menu: &mut Menu)
    requires
        old(menu).wf(),
        old(menu).cursor > 0 ==> old(menu).text@.len() - (old(menu).cursor - prev_rune(old(menu).text@,
            old(menu).cursor as int)) <= 4096,
    ensures
        killed_word(*old(menu), *final(menu)),
{
    let ghost a = *menu;
    let empty: Vec<u8> = Vec::new();
    loop
        invariant
            menu.wf(),
            empty@.len() == 0,
            kill_spaces(menu.text@, menu.cursor as int) == kill_spaces(a.text@, a.cursor as int),
            *menu == a || (rematched(a, *menu, menu.text@, menu.cursor as int, false) && menu.text@.len() <= 4096
                && menu.cursor < a.cursor),
            menu.cursor > 0 ==> menu.text@.len() - (menu.cursor - prev_rune(menu.text@, menu.cursor as int)) <= 4096,
        ensures
            menu.wf(),
            kill_spaces(a.text@, a.cursor as int) == (menu.text@, menu.cursor as int),
            *menu == a || (rematched(a, *menu, menu.text@, menu.cursor as int, false) && menu.text@.len() <= 4096
                && menu.cursor < a.cursor),
            menu.cursor > 0 ==> menu.text@.len() - (menu.cursor - prev_rune(menu.text@, menu.cursor as int)) <= 4096,
        decreases menu.cursor,
    {
        if menu.cursor == 0 {
            break;
        }
        let r = nextrune(&menu.text, menu.cursor, -1);
        proof {
            lemma_prev_rune(menu.text@, menu.cursor as int);
        }
        if menu.text[r as usize] != 0x20 {
            break;
        }
        let ghost m = *menu;
        insert_text(menu, &empty, r - menu.cursor as isize);
        proof {
            assert(edit_text(m.text@, m.cursor as int, empty@, r - m.cursor) =~= cut_back(m.text@, m.cursor as int));
            if m != a {
                lemma_rematch_trans(a, m, *menu, m.text@, m.cursor as int, menu.text@, menu.cursor as int);
            }
            if menu.cursor > 0 {
                lemma_prev_rune(menu.text@, menu.cursor as int);
            }
        }
    }
    let ghost mid = kill_spaces(a.text@, a.cursor as int);
    assert(mid == (menu.text@, menu.cursor as int));
    loop
        invariant
            menu.wf(),
            empty@.len() == 0,
            kill_nonspaces(menu.text@, menu.cursor as int) == kill_word(a.text@, a.cursor as int),
            *menu == a || (rematched(a, *menu, menu.text@, menu.cursor as int, false) && menu.text@.len() <= 4096
                && menu.cursor < a.cursor),
            menu.cursor > 0 ==> menu.text@.len() - (menu.cursor - prev_rune(menu.text@, menu.cursor as int)) <= 4096,
        ensures
            kill_word(a.text@, a.cursor as int) == (menu.text@, menu.cursor as int),
            *menu == a || (rematched(a, *menu, menu.text@, menu.cursor as int, false) && menu.cursor < a.cursor),
        decreases menu.cursor,
    {
        if menu.cursor == 0 {
            break;
        }
        let r = nextrune(&menu.text, menu.cursor, -1);
        proof {
            lemma_prev_rune(menu.text@, menu.cursor as int);
        }
        if menu.text[r as usize] == 0x20 {
            break;
        }
        let ghost m = *menu;
        insert_text(menu, &empty, r - menu.cursor as isize);
        proof {
            assert(edit_text(m.text@, m.cursor as int, empty@, r - m.cursor) =~= cut_back(m.text@, m.cursor as int));
            if m != a {
                lemma_rematch_trans(a, m, *menu, m.text@, m.cursor as int, menu.text@, menu.cursor as int);
            }
            if menu.cursor > 0 {
                lemma_prev_rune(menu.text@, menu.cursor as int);
            }
        }
    }
}

/// End with the cursor at the end of the input: shows the last page and
/// selects the last match.
fn end_of_list(menu: &mut Menu)
    requires
        old(menu).wf(),
        old(menu).cursor == old(menu).text@.len(),
    ensures
        end_effect(*old(menu), *final(menu)),
{
    let ghost a = *menu;
    let ghost l = a.match_list@;
    if menu.next.is_some() {
        assert(l.len() > 0);
        menu.curr = menu.matchend;
        menu.calcoffsets();
        proof {
            lemma_pos_of(*menu, l.len() - 1);
        }
        menu.curr = menu.prev;
        menu.calcoffsets();
        let ghost bound = a.page_bound();
        let ghost q1 = walk_prev(a.lines, a.bh, a.item_w@, bound, l, l.len() - 1, 0);
        proof {
            crate::menu::matching::lemma_walk_prev_range(a.lines, a.bh, a.item_w@, bound, l, l.len() - 1, 0);
            lemma_pos_of(*menu, q1);
        }
        let ghost mut q: int = q1;
        loop
            invariant
                menu.wf(),
                menu.offsets_ok(),
                *menu == (Menu { curr: menu.curr, prev: menu.prev, next: menu.next, ..a }),
                l == menu.match_list@,
                bound == menu.page_bound(),
                0 <= q < l.len(),
                menu.curr == Some(l[q]),
                menu.pos_of(l[q]) == q,
                settle(a.lines, a.bh, a.item_w@, bound, l, q1) == settle(a.lines, a.bh, a.item_w@, bound, l, q),
            ensures
                menu.wf(),
                menu.offsets_ok(),
                *menu == (Menu { curr: menu.curr, prev: menu.prev, next: menu.next, ..a }),
                menu.curr == Some(l[settle(a.lines, a.bh, a.item_w@, bound, l, q1)]),
            decreases l.len() - q,
        {
            if menu.next.is_none() {
                break;
            }
            let c = menu.curr.unwrap();
            assert(menu.items@[l[q] as int].right == crate::menu::state::next_in(l, q));
            match menu.items[c].right {
                Some(r) => {
                    menu.curr = Some(r);
                    menu.calcoffsets();
                    proof {
                        q = q + 1;
                        lemma_pos_of(*menu, q);
                    }
                },
                None => {
                    break;
                },
            }
        }
    }
    menu.sel = menu.matchend;
}

/// Handles one key press; returns the text to print when the menu is
/// done with a selection.
pub fn handle_key(menu: &mut Menu, event: KeyInput) -> (out: Option<Vec<u8>>)
    requires
        old(menu).wf(),
        key_ok(*old(menu), event),
    ensures
        final(menu).wf(),
        key_effect(*old(menu), *final(menu), event, out),
{
    let empty: Vec<u8> = Vec::new();
    match command_of(event.keysym, event.ctrl) {
        KeyCommand::KillToEnd => {
            let c = menu.cursor;
            menu.text.truncate(c);
            menu.do_match(false);
            None
        },
        KeyCommand::KillLine => {
            let cur = menu.cursor as isize;
            insert_text(menu, &empty, -cur);
            None
        },
        KeyCommand::KillWord => {
            kill_word_back(menu);
            None
        },
        KeyCommand::Ignore => None,
        KeyCommand::Key(ks) => handle_keysym(menu, ks, event),
    }
}

/// Handles a key by its keysym.
fn handle_keysym(menu: &mut Menu, ks: u32, event: KeyInput) -> (out: Option<Vec<u8>>)
    requires
        old(menu).wf(),
        event.utf8 matches Some(v) ==> old(menu).text@.len() + v@.len() <= isize::MAX,
    ensures
        final(menu).wf(),
        keysym_effect(*old(menu), *final(menu), ks, event, out),
{
    let empty: Vec<u8> = Vec::new();
    let ghost a = *menu;
    if ks == XK_RETURN || ks == XK_KP_ENTER {
        return finish(menu, true, !event.shift);
    }
    if ks == XK_ESCAPE {
        return finish(menu, false, false);
    }
    if ks == XK_DELETE {
        if menu.cursor < menu.text.len() {
            let r = nextrune(&menu.text, menu.cursor, 1);
            proof {
                lemma_next_rune(menu.text@, menu.cursor as int);
            }
            menu.cursor = r as usize;
            let r2 = nextrune(&menu.text, menu.cursor, -1);
            proof {
                lemma_prev_rune(menu.text@, menu.cursor as int);
            }
            if menu.cursor > 0 {
                insert_text(menu, &empty, r2 - menu.cursor as isize);
            }
        }
    } else if ks == XK_BACKSPACE {
        if menu.cursor > 0 {
            let r = nextrune(&menu.text, menu.cursor, -1);
            proof {
                lemma_prev_rune(menu.text@, menu.cursor as int);
            }
            insert_text(menu, &empty, r - menu.cursor as isize);
        }
    } else if ks == XK_END {
        if menu.cursor != menu.text.len() {
            menu.cursor = menu.text.len();
        } else {
            end_of_list(menu);
        }
    } else if ks == XK_HOME {
        if menu.sel == menu.matches {
            menu.cursor = 0;
        } else {
            menu.sel = menu.matches;
            menu.curr = menu.matches;
            menu.calcoffsets();
        }
    } else if ks == XK_LEFT {
        let no_left = match menu.sel {
            None => true,
            Some(s) => {
                proof {
                    lemma_list_neighbours(*menu, s);
                }
                menu.items[s].left.is_none()
            },
        };
        if menu.cursor > 0 && (no_left || menu.lines > 0) {
            let r = nextrune(&menu.text, menu.cursor, -1);
            proof {
                lemma_prev_rune(menu.text@, menu.cursor as int);
            }
            menu.cursor = if r < 0 { 0 } else { r as usize };
        } else if menu.lines == 0 {
            handle_up(menu);
        }
    } else if ks == XK_UP {
        handle_up(menu);
    } else if ks == XK_NEXT {
        if let Some(n) = menu.next {
            menu.sel = Some(n);
            menu.curr = Some(n);
            menu.calcoffsets();
        }
    } else if ks == XK_PRIOR {
        if let Some(p) = menu.prev {
            menu.sel = Some(p);
            menu.curr = Some(p);
            menu.calcoffsets();
        }
    } else if ks == XK_RIGHT {
        if menu.cursor < menu.text.len() {
            let r = nextrune(&menu.text, menu.cursor, 1);
            proof {
                lemma_next_rune(menu.text@, menu.cursor as int);
            }
            menu.cursor = r as usize;
        } else if menu.lines == 0 {
            handle_down(menu);
        }
    } else if ks == XK_DOWN {
        handle_down(menu);
    } else if ks == XK_TAB {
        if let Some(s) = menu.sel {
            proof {
                lemma_list_neighbours(*menu, s);
            }
            let t = menu.items[s].text.clone();
            assert(t@ =~= menu.items@[s as int].text@);
            menu.text = t;
            menu.cursor = menu.text.len();
            menu.do_match(true);
        }
    } else {
        match &event.utf8 {
            Some(v) => {
                if v.len() > 0 && !has_control_char(v) {
                    insert_text(menu, v, v.len() as isize);
                }
            },
            None => {},
        }
    }
    None
}

} // verus!
