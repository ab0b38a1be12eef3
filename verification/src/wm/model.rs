//! The window manager's state: clients and monitors kept in arenas, the
//! monitors chained from `mons_head`, and each monitor's clients chained
//! twice, in tiling order (`next`) and in focus order (`snext`).

use vstd::prelude::*;
use crate::links::{next_in, first_of, in_list};
use crate::wm::config::{LAYOUTS_LEN, TAGS_LEN, layout_symbol, SHOWBAR, TOPBAR, LT_TILE, LT_FLOAT};

verus! {

/// The aspect-ratio hint of a client, as the four words of its
/// `WM_NORMAL_HINTS` property: minimum and maximum aspect, each a
/// numerator (`x`) over a denominator (`y`).
#[derive(Clone, Copy, PartialEq, Eq, Structural)]
pub struct Aspect {
    pub min_x: i32,
    pub min_y: i32,
    pub max_x: i32,
    pub max_y: i32,
}

/// A managed window.
pub struct Client {
    pub name: Vec<u8>,
    pub aspect: Aspect,
    pub x: i32,
    pub y: i32,
    pub w: i32,
    pub h: i32,
    pub oldx: i32,
    pub oldy: i32,
    pub oldw: i32,
    pub oldh: i32,
    pub basew: i32,
    pub baseh: i32,
    pub incw: i32,
    pub inch: i32,
    pub maxw: i32,
    pub maxh: i32,
    pub minw: i32,
    pub minh: i32,
    pub bw: i32,
    pub oldbw: i32,
    pub tags: u32,
    pub isfixed: bool,
    pub isfloating: bool,
    pub isurgent: bool,
    pub oldstate: bool,
    /// The next client in tiling order, and in focus order.
    pub next: Option<usize>,
    pub snext: Option<usize>,
    pub mon: usize,
    pub win: u32,
    pub alive: bool,
}

/// A screen area with its bar, tags and layouts. `mfact` and `mfacts`
/// hold the bit patterns of the master-area factors (`f32::to_bits`),
/// which only the caller interprets.
pub struct Monitor {
    pub ltsymbol: Vec<u8>,
    pub mfact: u32,
    pub num: i32,
    /// The bar's y position.
    pub by: i32,
    /// The monitor's area and its window area (the area minus the bar).
    pub mx: i32,
    pub my: i32,
    pub mw: i32,
    pub mh: i32,
    pub wx: i32,
    pub wy: i32,
    pub ww: i32,
    pub wh: i32,
    pub seltags: usize,
    pub sellt: usize,
    pub tagset: [u32; 2],
    pub showbar: bool,
    pub topbar: bool,
    /// Heads of the tiling and focus lists, the selected client, and the
    /// next monitor.
    pub clients: Option<usize>,
    pub sel: Option<usize>,
    pub stack: Option<usize>,
    pub next: Option<usize>,
    pub barwin: u32,
    pub lt: [usize; 2],
    /// The tag whose settings are in use (0: all tags) and the one before.
    pub curtag: usize,
    pub prevtag: usize,
    /// Per-tag layout, master factor and bar visibility.
    pub lts: Vec<usize>,
    pub mfacts: Vec<u32>,
    pub showbars: Vec<bool>,
    pub alive: bool,
}

/// The whole window manager.
pub struct Wm {
    /// Screen size, bar height and the width of the layout symbol cell.
    pub sw: i32,
    pub sh: i32,
    pub bh: i32,
    pub blw: i32,
    pub numlockmask: u16,
    pub running: bool,
    /// The status text.
    pub stext: Vec<u8>,
    pub root: u32,
    pub clients: Vec<Client>,
    pub mons: Vec<Monitor>,
    pub mons_head: Option<usize>,
    pub selmon: Option<usize>,
    /// The keyboard mapping: `keysyms_per_keycode` keysyms for each keycode
    /// from `min_keycode` on.
    pub min_keycode: u8,
    pub keysyms_per_keycode: u8,
    pub keysym_table: Vec<u32>,
    /// The monitor list, and for each monitor its tiling and focus lists.
    pub ml: Ghost<Seq<usize>>,
    pub cls: Ghost<Seq<Seq<usize>>>,
    pub sls: Ghost<Seq<Seq<usize>>>,
}

/// The tiling link of `c` (`next`), or its focus link (`snext`).
pub open spec fn link(c: Client, stack: bool) -> Option<usize> {
    if stack { c.snext } else { c.next }
}

/// The elements of `l` are distinct.
pub open spec fn distinct(l: Seq<usize>) -> bool {
    forall|a: int, b: int| 0 <= a < b < l.len() ==> l[a] != l[b]
}

/// Starting at `head` and following the tiling links (or, with `stack`,
/// the focus links) of `cs` visits exactly the clients `l`, in order.
pub open spec fn chained(cs: Seq<Client>, head: Option<usize>, l: Seq<usize>, stack: bool) -> bool {
    &&& head == first_of(l)
    &&& forall|k: int| 0 <= k < l.len() ==> (#[trigger] l[k] as int) < cs.len()
    &&& distinct(l)
    &&& forall|k: int| 0 <= k < l.len() ==> link(#[trigger] cs[l[k] as int], stack) == next_in(l, k)
}

/// Starting at `head` and following the monitors' `next` links visits
/// exactly the live monitors `l`, in order.
pub open spec fn mons_chained(ms: Seq<Monitor>, head: Option<usize>, l: Seq<usize>) -> bool {
    &&& head == first_of(l)
    &&& forall|k: int| 0 <= k < l.len() ==> (#[trigger] l[k] as int) < ms.len()
    &&& distinct(l)
    &&& forall|k: int| 0 <= k < l.len() ==> (#[trigger] ms[l[k] as int]).next == next_in(l, k)
    &&& forall|k: int| 0 <= k < l.len() ==> (#[trigger] ms[l[k] as int]).alive
}

/// A client shows on a monitor when they share a tag.
pub open spec fn visible(c: Client, m: Monitor) -> bool {
    c.tags & m.tagset[m.seltags as int] != 0
}

/// The per-monitor settings are in range.
pub open spec fn mon_settings_ok(m: Monitor) -> bool {
    &&& m.seltags < 2
    &&& m.sellt < 2
    &&& m.lt[0] < LAYOUTS_LEN
    &&& m.lt[1] < LAYOUTS_LEN
    &&& m.curtag <= TAGS_LEN
    &&& m.prevtag <= TAGS_LEN
    &&& m.lts@.len() == TAGS_LEN + 1
    &&& m.mfacts@.len() == TAGS_LEN + 1
    &&& m.showbars@.len() == TAGS_LEN + 1
    &&& forall|i: int| 0 <= i < m.lts@.len() ==> m.lts@[i] < LAYOUTS_LEN
}

impl Wm {
    /// The tiling list of monitor `m`.
    pub open spec fn cl(&self, m: usize) -> Seq<usize> {
        self.cls@[m as int]
    }

    /// The focus list of monitor `m`.
    pub open spec fn sl(&self, m: usize) -> Seq<usize> {
        self.sls@[m as int]
    }

    /// Monitor `m`'s lists are chained and hold live clients of `m`.
    pub open spec fn mon_ok(&self, m: usize) -> bool {
        &&& chained(self.clients@, self.mons@[m as int].clients, self.cl(m), false)
        &&& chained(self.clients@, self.mons@[m as int].stack, self.sl(m), true)
        &&& forall|k: int| 0 <= k < self.cl(m).len() ==> self.clients@[#[trigger] self.cl(m)[k] as int].mon == m
        &&& forall|k: int| 0 <= k < self.cl(m).len() ==> self.clients@[#[trigger] self.cl(m)[k] as int].alive
        &&& forall|k: int| 0 <= k < self.sl(m).len() ==> self.clients@[#[trigger] self.sl(m)[k] as int].mon == m
        &&& forall|k: int| 0 <= k < self.sl(m).len() ==> self.clients@[#[trigger] self.sl(m)[k] as int].alive
        &&& mon_settings_ok(self.mons@[m as int])
    }

    /// The structural invariant: the monitor list and every live monitor's
    /// two client lists are well chained.
    pub open spec fn wf(&self) -> bool {
        &&& self.cls@.len() == self.mons@.len()
        &&& self.sls@.len() == self.mons@.len()
        &&& mons_chained(self.mons@, self.mons_head, self.ml@)
        &&& forall|k: int| 0 <= k < self.ml@.len() ==> self.mon_ok(#[trigger] self.ml@[k])
        &&& in_list(self.selmon, self.ml@)
    }

    /// Between operations each monitor's two lists hold the same clients,
    /// and its selected client is one of them.
    pub open spec fn consistent(&self) -> bool {
        forall|k: int| 0 <= k < self.ml@.len() ==> self.mon_consistent(#[trigger] self.ml@[k])
    }

    /// Monitor `m`'s two lists hold the same clients, and its selected
    /// client is one of them.
    pub open spec fn mon_consistent(&self, m: usize) -> bool {
        &&& forall|x: usize| self.cl(m).contains(x) <==> self.sl(m).contains(x)
        &&& in_list(self.mons@[m as int].sel, self.cl(m))
    }

    /// The invariant kept by every public operation.
    pub open spec fn inv(&self) -> bool {
        self.wf() && self.consistent()
    }

    /// The index `m` names a live monitor.
    pub open spec fn is_mon(&self, m: usize) -> bool {
        self.ml@.contains(m)
    }
}

/// A monitor with the default settings.
pub open spec fn fresh_monitor(m: Monitor) -> bool {
    &&& m.ltsymbol@ == layout_symbol(LT_TILE)
    &&& m.num == 0
    &&& m.by == 0
    &&& m.mx == 0 && m.my == 0 && m.mw == 0 && m.mh == 0
    &&& m.wx == 0 && m.wy == 0 && m.ww == 0 && m.wh == 0
    &&& m.seltags == 0
    &&& m.sellt == 0
    &&& m.tagset == [1u32, 1u32]
    &&& m.showbar == SHOWBAR
    &&& m.topbar == TOPBAR
    &&& m.clients is None && m.sel is None && m.stack is None && m.next is None
    &&& m.barwin == 0
    &&& m.lt == [LT_TILE, LT_FLOAT]
    &&& m.curtag == 1
    &&& m.prevtag == 1
    &&& m.lts@ == Seq::new((TAGS_LEN + 1) as nat, |i: int| LT_TILE)
    &&& m.showbars@ == Seq::new((TAGS_LEN + 1) as nat, |i: int| SHOWBAR)
    &&& m.mfacts@.len() == TAGS_LEN + 1
    &&& forall|i: int| 0 <= i < m.mfacts@.len() ==> m.mfacts@[i] == m.mfact
    &&& m.alive
}

/// A coordinate or size within the range the geometry arithmetic is made
/// for: far beyond any screen, and small enough that sums of a few of them
/// fit in an `i32`.
pub open spec fn small(v: int) -> bool {
    -0x1000000 <= v <= 0x1000000
}

/// A coordinate or size that layouts may request: sixteen times the
/// `small` range, with room to spare.
pub open spec fn req(v: int) -> bool {
    -0x18000000 <= v <= 0x18000000
}

impl Client {
    /// The client's position is within sixteen `small` ranges, its size
    /// within three, and its border width and size hints are `small` and
    /// not negative.
    pub open spec fn sane(&self) -> bool {
        &&& pos_ok(self.x as int) && pos_ok(self.y as int) && pos_ok(self.oldx as int) && pos_ok(self.oldy as int)
        &&& size_ok(self.w as int) && size_ok(self.h as int) && size_ok(self.oldw as int) && size_ok(self.oldh as int)
        &&& small(self.basew as int) && small(self.baseh as int) && small(self.incw as int) && small(self.inch as int)
        &&& small(self.maxw as int) && small(self.maxh as int) && small(self.minw as int) && small(self.minh as int)
        &&& self.basew >= 0 && self.baseh >= 0 && self.incw >= 0 && self.inch >= 0
        &&& self.maxw >= 0 && self.maxh >= 0 && self.minw >= 0 && self.minh >= 0
        &&& small(self.bw as int) && small(self.oldbw as int) && self.bw >= 0 && self.oldbw >= 0
    }
}

/// A client position within sixteen `small` ranges.
pub open spec fn pos_ok(v: int) -> bool {
    -0x10000000 <= v <= 0x10000000
}

/// A client size within three `small` ranges.
pub open spec fn size_ok(v: int) -> bool {
    -0x3000000 <= v <= 0x3000000
}

impl Monitor {
    /// The monitor's area is within the `screen` range, its window area
    /// and bar within the `small` one.
    pub open spec fn sane(&self) -> bool {
        &&& screen(self.mx as int) && screen(self.my as int) && screen(self.mw as int) && screen(self.mh as int)
        &&& small(self.wx as int) && small(self.wy as int) && small(self.ww as int) && small(self.wh as int)
        &&& small(self.by as int)
    }
}

/// A screen coordinate or size: a sixteenth of the `small` range, well
/// beyond what a display reports.
pub open spec fn screen(v: int) -> bool {
    -0x100000 <= v <= 0x100000
}

impl Wm {
    /// The screen, the bar, every live monitor and every client in a list
    /// have `small` geometry.
    pub open spec fn sane(&self) -> bool {
        &&& screen(self.sw as int) && screen(self.sh as int) && screen(self.bh as int) && small(self.blw as int)
        &&& forall|k: int| 0 <= k < self.ml@.len() ==> (#[trigger] self.mons@[self.ml@[k] as int]).sane()
        &&& forall|i: int| 0 <= i < self.clients@.len() && self.clients@[i].alive ==> (#[trigger] self.clients@[i]).sane()
    }
}

/// Whether client `c` shows on monitor `m`.
pub fn isvisible(c: &Client, m: &Monitor) -> (r: bool)
    requires
        m.seltags < 2,
    ensures
        r == visible(*c, *m),
{
    (c.tags & m.tagset[m.seltags]) != 0
}

/// The client's width including its border.
pub fn width_of(c: &Client) -> (r: i32)
    requires
        size_ok(c.w as int),
        small(c.bw as int),
    ensures
        r == c.w + 2 * c.bw,
{
    c.w + 2 * c.bw
}

/// The client's height including its border.
pub fn height_of(c: &Client) -> (r: i32)
    requires
        size_ok(c.h as int),
        small(c.bw as int),
    ensures
        r == c.h + 2 * c.bw,
{
    c.h + 2 * c.bw
}

impl Client {
    /// A client of window `win`, with every other field zero, empty or
    /// false, and alive.
    pub fn new(win: u32) -> (c: Client)
        ensures
            c.win == win,
            c.name@.len() == 0,
            c.aspect == (Aspect { min_x: 0, min_y: 0, max_x: 0, max_y: 0 }),
            c.x == 0 && c.y == 0 && c.w == 0 && c.h == 0,
            c.oldx == 0 && c.oldy == 0 && c.oldw == 0 && c.oldh == 0,
            c.basew == 0 && c.baseh == 0 && c.incw == 0 && c.inch == 0,
            c.maxw == 0 && c.maxh == 0 && c.minw == 0 && c.minh == 0,
            c.bw == 0 && c.oldbw == 0,
            c.tags == 0,
            !c.isfixed && !c.isfloating && !c.isurgent && !c.oldstate,
            c.next is None && c.snext is None,
            c.mon == 0,
            c.alive,
    {
        Client {
            name: Vec::new(),
            aspect: Aspect { min_x: 0, min_y: 0, max_x: 0, max_y: 0 },
            x: 0, y: 0, w: 0, h: 0,
            oldx: 0, oldy: 0, oldw: 0, oldh: 0,
            basew: 0, baseh: 0, incw: 0, inch: 0,
            maxw: 0, maxh: 0, minw: 0, minh: 0,
            bw: 0, oldbw: 0,
            tags: 0,
            isfixed: false, isfloating: false, isurgent: false, oldstate: false,
            next: None, snext: None,
            mon: 0,
            win,
            alive: true,
        }
    }
}

impl Monitor {
    /// A monitor with the default settings: the tile layout, the first
    /// tag shown, the bar shown at the top, master factor `mfact` on
    /// every tag, and no clients.
    pub fn new(mfact: u32) -> (m: Monitor)
        ensures
            fresh_monitor(m),
            m.mfact == mfact,
            mon_settings_ok(m),
    {
        let mut lts: Vec<usize> = Vec::new();
        let mut mfacts: Vec<u32> = Vec::new();
        let mut showbars: Vec<bool> = Vec::new();
        let mut i: usize = 0;
        while i < TAGS_LEN + 1
            invariant
                i <= TAGS_LEN + 1,
                lts@ == Seq::new(i as nat, |j: int| LT_TILE),
                showbars@ == Seq::new(i as nat, |j: int| SHOWBAR),
                mfacts@.len() == i,
                forall|j: int| 0 <= j < i ==> mfacts@[j] == mfact,
            decreases TAGS_LEN + 1 - i,
        {
            lts.push(LT_TILE);
            mfacts.push(mfact);
            showbars.push(SHOWBAR);
            i += 1;
            assert(lts@ =~= Seq::new(i as nat, |j: int| LT_TILE));
            assert(showbars@ =~= Seq::new(i as nat, |j: int| SHOWBAR));
        }
        let mut sym: Vec<u8> = Vec::new();
        sym.push(91u8);
        sym.push(93u8);
        sym.push(61u8);
        assert(sym@ =~= layout_symbol(LT_TILE));
        Monitor {
            ltsymbol: sym,
            mfact,
            num: 0,
            by: 0,
            mx: 0, my: 0, mw: 0, mh: 0,
            wx: 0, wy: 0, ww: 0, wh: 0,
            seltags: 0,
            sellt: 0,
            tagset: [1, 1],
            showbar: SHOWBAR,
            topbar: TOPBAR,
            clients: None, sel: None, stack: None, next: None,
            barwin: 0,
            lt: [LT_TILE, LT_FLOAT],
            curtag: 1,
            prevtag: 1,
            lts,
            mfacts,
            showbars,
            alive: true,
        }
    }
}

} // verus!
