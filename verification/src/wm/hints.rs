//! A client's properties: its size hints, urgency hint, title and the
//! window rules its class and title select.

use vstd::prelude::*;
use crate::wm::model::{Aspect, Client, Monitor, Wm, small};
use crate::wm::focus::managed;
use crate::wm::config::{Rule, TAG_MASK};
use crate::text::text_contains;
use vstd::string::StringSliceAdditionalSpecFns;

verus! {

/// The size-hint flags of `WM_NORMAL_HINTS`: minimum size, maximum size,
/// resize increments, aspect ratios and base size.
pub const P_MIN_SIZE: u32 = 16;
pub const P_MAX_SIZE: u32 = 32;
pub const P_RESIZE_INC: u32 = 64;
pub const P_ASPECT: u32 = 128;
pub const P_BASE_SIZE: u32 = 256;

/// The urgency flag of `WM_HINTS`.
pub const URGENCY_HINT: u32 = 256;

/// The size fields of `WM_NORMAL_HINTS` (words 5 to 12) are within the
/// `small` range.
pub open spec fn size_words_ok(words: Seq<u32>) -> bool {
    words.len() >= 18 ==> forall|i: int| 5 <= i <= 12 ==> words[i] <= 0x1000000
}

/// Client `c` with the size hints of the `WM_NORMAL_HINTS` words `words`
/// (all zero unless there are 18 words): the base size (or the minimum
/// size), increments, maximum and minimum size (or the base size) and
/// aspect ratios that the flags in word 0 announce; the client's size is
/// fixed when its minimum and maximum are equal and set.
pub open spec fn size_hinted(c: Client, words: Seq<u32>) -> Client {
    let full = words.len() >= 18;
    let flags = if full { words[0] } else { 0 };
    let p_min = full && flags & P_MIN_SIZE != 0;
    let p_max = full && flags & P_MAX_SIZE != 0;
    let p_inc = full && flags & P_RESIZE_INC != 0;
    let p_aspect = full && flags & P_ASPECT != 0;
    let p_base = full && flags & P_BASE_SIZE != 0;
    let basew = if p_base { words[7] as i32 } else if p_min { words[5] as i32 } else { 0 };
    let baseh = if p_base { words[8] as i32 } else if p_min { words[6] as i32 } else { 0 };
    let incw = if p_inc { words[9] as i32 } else { 0 };
    let inch = if p_inc { words[10] as i32 } else { 0 };
    let maxw = if p_max { words[11] as i32 } else { 0 };
    let maxh = if p_max { words[12] as i32 } else { 0 };
    let minw = if p_min { words[5] as i32 } else if p_base { words[7] as i32 } else { 0 };
    let minh = if p_min { words[6] as i32 } else if p_base { words[8] as i32 } else { 0 };
    let aspect = if p_aspect {
        Aspect { min_x: words[13] as i32, min_y: words[14] as i32, max_x: words[15] as i32, max_y: words[16] as i32 }
    } else {
        Aspect { min_x: 0, min_y: 0, max_x: 0, max_y: 0 }
    };
    Client {
        basew, baseh, incw, inch, maxw, maxh, minw, minh, aspect,
        isfixed: maxw != 0 && minw != 0 && maxh != 0 && minh != 0 && maxw == minw && maxh == minh,
        ..c
    }
}

/// A `WM_NORMAL_HINTS` word as a signed number.
fn word_i32(w: u32) -> (r: i32)
    ensures
        r == w as i32,
{
    #[verifier::truncate] (w as i32)
}

/// The `WM_HINTS` words with the urgency flag cleared in the first.
pub open spec fn urgency_cleared(words: Seq<u32>) -> Seq<u32> {
    if words.len() >= 1 { words.update(0, words[0] & !URGENCY_HINT) } else { words }
}

/// The title given to windows without one, and the class and instance of
/// windows without `WM_CLASS`: "broken".
pub open spec fn broken() -> Seq<u8> {
    seq![98u8, 114u8, 111u8, 107u8, 101u8, 110u8]
}

/// The position of the first zero byte of `s` from position `i` on, or
/// the length of `s`.
pub open spec fn nul_from(s: Seq<u8>, i: int) -> int
    decreases s.len() - i,
{
    if i >= s.len() || i < 0 {
        s.len() as int
    } else if s[i] == 0 {
        i
    } else {
        nul_from(s, i + 1)
    }
}

/// The instance and class names of a `WM_CLASS` property: the text up to
/// the first zero byte, and the text after it up to the next one.
pub open spec fn split_class(prop: Seq<u8>) -> (Seq<u8>, Seq<u8>) {
    let e = nul_from(prop, 0);
    let inst = prop.subrange(0, e);
    let cls = if e < prop.len() { prop.subrange(e + 1, nul_from(prop, e + 1)) } else { Seq::empty() };
    (inst, cls)
}

/// A rule's text matches `s` when it is absent or contained in `s`.
pub open spec fn rule_text_matches(t: Option<&str>, s: Seq<u8>) -> bool {
    match t {
        Some(x) => text_contains(s, x.spec_bytes(), false),
        None => true,
    }
}

/// Rule `r` applies to a window of class `cls`, instance `inst` and title
/// `title`.
pub open spec fn rule_applies(r: Rule, cls: Seq<u8>, inst: Seq<u8>, title: Seq<u8>) -> bool {
    rule_text_matches(r.class, cls) && rule_text_matches(r.instance, inst) && rule_text_matches(r.title, title)
}

/// The first live monitor, in list order, numbered `num`.
pub open spec fn mon_numbered(ml: Seq<usize>, mons: Seq<Monitor>, num: i32) -> Option<usize> {
    if exists|k: int| 0 <= k < ml.len() && mons[ml[k] as int].num == num {
        let k = choose|k: int| 0 <= k < ml.len() && mons[ml[k] as int].num == num
            && forall|k2: int| 0 <= k2 < k ==> mons[ml[k2] as int].num != num;
        Some(ml[k])
    } else {
        None
    }
}

/// The floating state, tags and monitor that rules `rules[i..]` give a
/// window that had `st`.
pub open spec fn rules_from(ml: Seq<usize>, mons: Seq<Monitor>, rules: Seq<Rule>, i: int, cls: Seq<u8>, inst: Seq<u8>, title: Seq<u8>,
    st: (bool, u32, usize)) -> (bool, u32, usize)
    decreases rules.len() - i,
{
    if i < 0 || i >= rules.len() {
        st
    } else {
        let r = rules[i];
        let st2 = if rule_applies(r, cls, inst, title) {
            let mon = if r.monitor >= 0 {
                match mon_numbered(ml, mons, r.monitor) { Some(m) => m, None => st.2 }
            } else {
                st.2
            };
            (r.isfloating, st.1 | r.tags, mon)
        } else {
            st
        };
        rules_from(ml, mons, rules, i + 1, cls, inst, title, st2)
    }
}

impl Wm {
    /// Sets client `c`'s size hints from its `WM_NORMAL_HINTS` words.
    pub fn update_size_hints(&mut self, c: usize, words: &[u32])
        requires
            old(self).inv(),
            old(self).sane(),
            (c as int) < old(self).clients@.len(),
            size_words_ok(words@),
        ensures
            final(self).inv(),
            final(self).sane(),
            final(self).clients@ == old(self).clients@.update(c as int, size_hinted(old(self).clients@[c as int], words@)),
            *final(self) == (Wm { clients: final(self).clients, ..*old(self) }),
    {
        let ghost o = *self;
        let mut basew: i32 = 0;
        let mut baseh: i32 = 0;
        let mut incw: i32 = 0;
        let mut inch: i32 = 0;
        let mut maxw: i32 = 0;
        let mut maxh: i32 = 0;
        let mut minw: i32 = 0;
        let mut minh: i32 = 0;
        let mut aspect = Aspect { min_x: 0, min_y: 0, max_x: 0, max_y: 0 };
        if words.len() >= 18 {
            let flags = words[0];
            let p_min = flags & P_MIN_SIZE != 0;
            let p_max = flags & P_MAX_SIZE != 0;
            let p_inc = flags & P_RESIZE_INC != 0;
            let p_aspect = flags & P_ASPECT != 0;
            let p_base = flags & P_BASE_SIZE != 0;
            if p_base {
                basew = word_i32(words[7]);
                baseh = word_i32(words[8]);
            } else if p_min {
                basew = word_i32(words[5]);
                baseh = word_i32(words[6]);
            }
            if p_inc {
                incw = word_i32(words[9]);
                inch = word_i32(words[10]);
            }
            if p_max {
                maxw = word_i32(words[11]);
                maxh = word_i32(words[12]);
            }
            if p_min {
                minw = word_i32(words[5]);
                minh = word_i32(words[6]);
            } else if p_base {
                minw = word_i32(words[7]);
                minh = word_i32(words[8]);
            }
            if p_aspect {
                aspect = Aspect {
                    min_x: word_i32(words[13]),
                    min_y: word_i32(words[14]),
                    max_x: word_i32(words[15]),
                    max_y: word_i32(words[16]),
                };
            }
        }
        let isfixed = maxw != 0 && minw != 0 && maxh != 0 && minh != 0 && maxw == minw && maxh == minh;
        self.clients[c].basew = basew;
        self.clients[c].baseh = baseh;
        self.clients[c].incw = incw;
        self.clients[c].inch = inch;
        self.clients[c].maxw = maxw;
        self.clients[c].maxh = maxh;
        self.clients[c].minw = minw;
        self.clients[c].minh = minh;
        self.clients[c].aspect = aspect;
        self.clients[c].isfixed = isfixed;
        proof {
            assert(self.clients@ =~= o.clients@.update(c as int, size_hinted(o.clients@[c as int], words@)));
            if words@.len() >= 18 {
                assert(words@[5] <= 0x1000000 && words@[6] <= 0x1000000 && words@[7] <= 0x1000000);
                assert(words@[8] <= 0x1000000 && words@[9] <= 0x1000000 && words@[10] <= 0x1000000);
                assert(words@[11] <= 0x1000000 && words@[12] <= 0x1000000);
            }
            self.lemma_client_changed(o, c);
        }
    }
    /// Sets client `c`'s urgency from its `WM_HINTS` words, unless it is
    /// the selected client and urgent: then the words to write back, with
    /// the urgency flag cleared, are returned instead.
    pub fn update_wm_hints(&mut self, c: usize, words: &Vec<u32>) -> (r: Option<Vec<u32>>)
        requires
            old(self).inv(),
            old(self).sane(),
            (c as int) < old(self).clients@.len(),
        ensures
            final(self).inv(),
            final(self).sane(),
            ({
                let urgent = words@.len() >= 1 && words@[0] & URGENCY_HINT != 0;
                let is_sel = old(self).selmon matches Some(m) && old(self).mons@[m as int].sel == Some(c);
                if words@.len() == 0 {
                    *final(self) == *old(self) && r is None
                } else if is_sel && urgent {
                    *final(self) == *old(self) && (r matches Some(v) && v@ == urgency_cleared(words@))
                } else {
                    &&& r is None
                    &&& final(self).clients@ == old(self).clients@.update(c as int, Client { isurgent: urgent, ..old(self).clients@[c as int] })
                    &&& *final(self) == (Wm { clients: final(self).clients, ..*old(self) })
                }
            }),
    {
        if words.len() < 1 {
            return None;
        }
        let urgent = words[0] & URGENCY_HINT != 0;
        let is_sel = match self.selmon {
            Some(m) => {
                proof {
                    self.lemma_is_mon(m);
                }
                self.mons[m].sel == Some(c)
            },
            None => false,
        };
        if is_sel && urgent {
            let mut v = words.clone();
            let w0 = v[0] & !URGENCY_HINT;
            v.set(0, w0);
            assert(v@ =~= urgency_cleared(words@));
            return Some(v);
        }
        let ghost o = *self;
        self.clients[c].isurgent = urgent;
        proof {
            self.lemma_client_changed(o, c);
        }
        None
    }

    /// The first monitor of `ms`, the monitor list, numbered `num`.
    fn find_mon_numbered_in(&self, ms: &Vec<usize>, num: i32) -> (r: Option<usize>)
        requires
            ms@ == self.ml@,
            forall|q: int| 0 <= q < self.ml@.len() ==> (#[trigger] self.ml@[q] as int) < self.mons@.len(),
        ensures
            r == mon_numbered(self.ml@, self.mons@, num),
            r matches Some(m) ==> self.is_mon(m),
    {
        let mut k: usize = 0;
        while k < ms.len()
            invariant
                ms@ == self.ml@,
                forall|q: int| 0 <= q < self.ml@.len() ==> (#[trigger] self.ml@[q] as int) < self.mons@.len(),
                k <= ms@.len(),
                forall|k2: int| 0 <= k2 < k ==> self.mons@[self.ml@[k2] as int].num != num,
            decreases ms@.len() - k,
        {
            if self.mons[ms[k]].num == num {
                assert(self.mons@[self.ml@[k as int] as int].num == num);
                assert(self.ml@.contains(ms@[k as int]));
                return Some(ms[k]);
            }
            k += 1;
        }
        None
    }

    /// Applies the window rules to client `c`, not yet in a list, whose
    /// `WM_CLASS` property is `class_prop` (none or empty: its class and
    /// instance are "broken"): it floats as the last rule that applies says,
    /// gets their tags and monitor, and otherwise its monitor's shown tags.
    pub fn applyrules(&mut self, c: usize, class_prop: Option<Vec<u8>>, rules: &Vec<Rule>)
        requires
            old(self).inv(),
            old(self).sane(),
            (c as int) < old(self).clients@.len(),
            old(self).clients@[c as int].alive,
            old(self).is_mon(old(self).clients@[c as int].mon),
            !managed(*old(self), c),
        ensures
            final(self).inv(),
            final(self).sane(),
            ({
                let (inst, cls) = match class_prop {
                    Some(p) => if p@.len() > 0 { split_class(p@) } else { (broken(), broken()) },
                    None => (broken(), broken()),
                };
                let cl = old(self).clients@[c as int];
                let st = rules_from(old(self).ml@, old(self).mons@, rules@, 0, cls, inst, cl.name@, (false, 0u32, cl.mon));
                let masked = st.1 & TAG_MASK;
                let mn = old(self).mons@[st.2 as int];
                &&& final(self).clients@ == old(self).clients@.update(c as int, Client {
                        isfloating: st.0,
                        mon: st.2,
                        tags: if masked != 0 { masked } else { mn.tagset[mn.seltags as int] },
                        ..cl })
                &&& *final(self) == (Wm { clients: final(self).clients, ..*old(self) })
                &&& old(self).is_mon(st.2)
            }),
    {
        let ghost o = *self;
        let (inst, cls): (Vec<u8>, Vec<u8>) = match class_prop {
            Some(p) => {
                if p.len() > 0 {
                    split_class_exec(&p)
                } else {
                    (broken_exec(), broken_exec())
                }
            },
            None => (broken_exec(), broken_exec()),
        };
        let ms = self.mon_list();
        proof {
            assert forall|q: int| 0 <= q < o.ml@.len() implies (#[trigger] o.ml@[q] as int) < o.mons@.len() by {}
        }
        let mut isfloating = false;
        let mut tags: u32 = 0;
        let mut mon = self.clients[c].mon;
        let mut i: usize = 0;
        let ghost title = self.clients@[c as int].name@;
        while i < rules.len()
            invariant
                *self == o,
                i <= rules@.len(),
                o.is_mon(mon),
                title == o.clients@[c as int].name@,
                ms@ == o.ml@,
                forall|q: int| 0 <= q < o.ml@.len() ==> (#[trigger] o.ml@[q] as int) < o.mons@.len(),
                (c as int) < o.clients@.len(),
                rules_from(o.ml@, o.mons@, rules@, i as int, cls@, inst@, title, (isfloating, tags, mon))
                    == rules_from(o.ml@, o.mons@, rules@, 0, cls@, inst@, title, (false, 0u32, o.clients@[c as int].mon)),
            decreases rules@.len() - i,
        {
            let r = &rules[i];
            let cm = match r.class {
                Some(t) => crate::text::find_sub(cls.as_slice(), t.as_bytes(), false),
                None => true,
            };
            let im = match r.instance {
                Some(t) => crate::text::find_sub(inst.as_slice(), t.as_bytes(), false),
                None => true,
            };
            let tm = match r.title {
                Some(t) => crate::text::find_sub(self.clients[c].name.as_slice(), t.as_bytes(), false),
                None => true,
            };
            if cm && im && tm {
                isfloating = r.isfloating;
                tags = tags | r.tags;
                if r.monitor >= 0 {
                    match self.find_mon_numbered_in(&ms, r.monitor) {
                        Some(m) => {
                            mon = m;
                        },
                        None => {},
                    }
                }
            }
            i += 1;
        }
        let masked = tags & TAG_MASK;
        proof {
            o.lemma_is_mon(mon);
        }
        let nt = if masked != 0 { masked } else { self.mons[mon].tagset[self.mons[mon].seltags] };
        self.clients[c].isfloating = isfloating;
        self.clients[c].mon = mon;
        self.clients[c].tags = nt;
        proof {
            self.lemma_unlisted_client(o, c);
            assert forall|k: int| 0 <= k < self.ml@.len() implies self.mon_consistent(#[trigger] self.ml@[k]) by {
                assert(o.mon_consistent(o.ml@[k]));
            }
            assert forall|i: int| 0 <= i < self.clients@.len() && self.clients@[i].alive implies (#[trigger] self.clients@[i]).sane() by {
                assert(o.clients@[i].alive);
                assert(o.clients@[i].sane());
            }
        }
    }
}

/// The instance and class names of a non-empty `WM_CLASS` property.
pub fn split_class_exec(prop: &Vec<u8>) -> (r: (Vec<u8>, Vec<u8>))
    ensures
        (r.0@, r.1@) == split_class(prop@),
{
    let n = prop.len();
    let mut e: usize = 0;
    while e < n && prop[e] != 0
        invariant
            n == prop@.len(),
            e <= n,
            nul_from(prop@, 0) == nul_from(prop@, e as int),
        decreases n - e,
    {
        e += 1;
    }
    let mut inst: Vec<u8> = Vec::new();
    let mut i: usize = 0;
    while i < e
        invariant
            e <= n,
            n == prop@.len(),
            i <= e,
            inst@ == prop@.subrange(0, i as int),
        decreases e - i,
    {
        inst.push(prop[i]);
        assert(inst@ =~= prop@.subrange(0, i + 1));
        i += 1;
    }
    let mut cls: Vec<u8> = Vec::new();
    if e < n {
        let mut f: usize = e + 1;
        while f < n && prop[f] != 0
            invariant
                n == prop@.len(),
                e < f <= n,
                nul_from(prop@, e + 1) == nul_from(prop@, f as int),
            decreases n - f,
        {
            f += 1;
        }
        let mut j: usize = e + 1;
        while j < f
            invariant
                e < j <= f,
                f <= n,
                n == prop@.len(),
                cls@ == prop@.subrange(e + 1, j as int),
            decreases f - j,
        {
            cls.push(prop[j]);
            assert(cls@ =~= prop@.subrange(e + 1, j + 1));
            j += 1;
        }
    }
    (inst, cls)
}

/// "broken".
pub fn broken_exec() -> (r: Vec<u8>)
    ensures
        r@ == broken(),
{
    let mut v: Vec<u8> = Vec::new();
    v.push(98u8);
    v.push(114u8);
    v.push(111u8);
    v.push(107u8);
    v.push(101u8);
    v.push(110u8);
    assert(v@ =~= broken());
    v
}

} // verus!
