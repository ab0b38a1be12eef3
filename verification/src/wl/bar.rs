//! Where the compositor's bar puts its parts.

use vstd::prelude::*;
use crate::wm::config::TAGS_LEN;
use crate::wm::model::small;
use crate::wm::geometry::imax;
use crate::wm::bar::{prefix, widths_ok};

verus! {

/// One tag's cell: where it is, whether the tag shows, whether an urgent
/// window has it.
#[derive(Clone, Copy, Debug, PartialEq, Eq, Structural)]
pub struct WlTagCell {
    pub x: i32,
    pub w: i32,
    pub shown: bool,
    pub urgent: bool,
}

/// The bar's parts, from the left: tag cells, the layout symbol, the
/// title on the selected monitor, and the status text at the right end.
pub struct WlBarPlan {
    pub tags: Vec<WlTagCell>,
    pub lt_x: i32,
    pub lt_w: i32,
    pub status_x: i32,
    pub status_w: i32,
    pub title: Option<(i32, i32)>,
}

/// The text widths `w` each padded by `pad`.
pub open spec fn padded(w: Seq<i32>, pad: int) -> Seq<i32> {
    Seq::new(w.len(), |i: int| (w[i] + pad) as i32)
}

/// Lays out a bar `bw` wide: each tag's cell is its name's width plus
/// `pad`, shown when `sel_tags` has it and marked urgent when `urg` has
/// it; the layout symbol follows; the status text is right-aligned but not
/// over the symbol; on the selected monitor the title fills what lies
/// between, when that is not empty.
pub fn bar_layout(tag_w: &Vec<i32>, pad: i32, sel_tags: u32, urg: u32, lt_w: i32, st_w: i32, bw: i32,
    selected: bool) -> (p: WlBarPlan)
    requires
        tag_w@.len() == TAGS_LEN,
        widths_ok(tag_w@),
        0 <= pad && small(pad as int),
        0 <= lt_w && small(lt_w as int) && 0 <= st_w && small(st_w as int) && small(bw as int),
    ensures
        ({
            let cw = padded(tag_w@, pad as int);
            let after = prefix(cw, TAGS_LEN as int) + lt_w + pad;
            let sx = imax(bw - (st_w + pad), after);
            &&& p.tags@.len() == TAGS_LEN
            &&& forall|i: int| 0 <= i < TAGS_LEN ==> {
                let t = #[trigger] p.tags@[i];
                &&& t.x == prefix(cw, i) && t.w == cw[i]
                &&& t.shown == (sel_tags & (1u32 << i as u32) != 0)
                &&& t.urgent == (urg & (1u32 << i as u32) != 0)
            }
            &&& p.lt_x == prefix(cw, TAGS_LEN as int) && p.lt_w == lt_w + pad
            &&& p.status_x == sx && p.status_w == st_w + pad
            &&& p.title == (if selected && sx - after > 0 { Some((after as i32, (sx - after) as i32)) } else { None })
        }),
{
    let ghost cw = padded(tag_w@, pad as int);
    let mut tags: Vec<WlTagCell> = Vec::new();
    let mut x: i32 = 0;
    let mut i: usize = 0;
    while i < TAGS_LEN
        invariant
            tag_w@.len() == TAGS_LEN,
            widths_ok(tag_w@),
            0 <= pad && small(pad as int),
            cw == padded(tag_w@, pad as int),
            i <= TAGS_LEN,
            x == prefix(cw, i as int),
            0 <= x <= i * 0x2000000,
            tags@.len() == i,
            forall|j: int| 0 <= j < i ==> {
                let t = #[trigger] tags@[j];
                &&& t.x == prefix(cw, j) && t.w == cw[j]
                &&& t.shown == (sel_tags & (1u32 << j as u32) != 0)
                &&& t.urgent == (urg & (1u32 << j as u32) != 0)
            },
        decreases TAGS_LEN - i,
    {
        let w = tag_w[i] + pad;
        let bit: u32 = 1u32 << (i as u32);
        tags.push(WlTagCell { x, w, shown: sel_tags & bit != 0, urgent: urg & bit != 0 });
        x = x + w;
        i += 1;
    }
    let lt_x = x;
    let lt_cell = lt_w + pad;
    let after = x + lt_cell;
    let st_cell = st_w + pad;
    let sx = if bw - st_cell > after { bw - st_cell } else { after };
    let title = if selected && sx - after > 0 { Some((after, sx - after)) } else { None };
    WlBarPlan { tags, lt_x, lt_w: lt_cell, status_x: sx, status_w: st_cell, title }
}

} // verus!
