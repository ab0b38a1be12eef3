//! The window manager's compile-time configuration: tags, layouts, borders
//! and the window rules.

use vstd::prelude::*;

verus! {

/// Number of tags, and the mask of all of them.
pub const TAGS_LEN: usize = 9;
pub const TAG_MASK: u32 = 0x1ff;

/// Border width, and the distance within which a dragged window snaps to
/// an edge.
pub const BORDERPX: i32 = 3;
pub const SNAP: i32 = 10;

pub const SHOWBAR: bool = true;
pub const TOPBAR: bool = true;

/// The layouts: tiled, floating and monocle.
pub const LAYOUTS_LEN: usize = 3;
pub const LT_TILE: usize = 0;
pub const LT_FLOAT: usize = 1;
pub const LT_MONOCLE: usize = 2;

/// The symbols of the layouts: "[]=", "><>" and "[M]".
pub open spec fn layout_symbol(lt: usize) -> Seq<u8> {
    if lt == LT_TILE {
        seq![91u8, 93u8, 61u8]
    } else if lt == LT_FLOAT {
        seq![62u8, 60u8, 62u8]
    } else {
        seq![91u8, 77u8, 93u8]
    }
}

/// Whether layout `lt` arranges windows (the floating layout does not).
pub open spec fn arranges(lt: usize) -> bool {
    lt != LT_FLOAT
}

/// The symbol of layout `lt`.
pub fn symbol_of(lt: usize) -> (s: Vec<u8>)
    requires
        lt < LAYOUTS_LEN,
    ensures
        s@ == layout_symbol(lt),
{
    let mut s: Vec<u8> = Vec::new();
    if lt == LT_TILE {
        s.push(91u8);
        s.push(93u8);
        s.push(61u8);
    } else if lt == LT_FLOAT {
        s.push(62u8);
        s.push(60u8);
        s.push(62u8);
    } else {
        s.push(91u8);
        s.push(77u8);
        s.push(93u8);
    }
    assert(s@ =~= layout_symbol(lt));
    s
}

/// Whether layout `lt` arranges windows.
pub fn has_arrange(lt: usize) -> (r: bool)
    ensures
        r == arranges(lt),
{
    lt != LT_FLOAT
}

/// A window rule: windows whose class, instance and title contain the
/// given texts (an absent text matches anything) get the rule's tags,
/// floating state and monitor (-1: any).
pub struct Rule {
    pub class: Option<&'static str>,
    pub instance: Option<&'static str>,
    pub title: Option<&'static str>,
    pub tags: u32,
    pub isfloating: bool,
    pub monitor: i32,
}

/// A rule that makes every window whose class contains `class` float.
pub fn floating_class(class: &'static str, title: Option<&'static str>) -> (r: Rule)
    ensures
        r.class == Some(class),
        r.instance is None,
        r.title == title,
        r.tags == 0,
        r.isfloating,
        r.monitor == -1,
{
    Rule { class: Some(class), instance: None, title, tags: 0, isfloating: true, monitor: -1 }
}

/// The configured rules: these applications' windows float.
pub fn default_rules() -> (v: Vec<Rule>)
    ensures
        v@.len() == 9,
        forall|i: int| 0 <= i < v@.len() ==> (#[trigger] v@[i]).isfloating && v@[i].tags == 0
            && v@[i].monitor == -1 && v@[i].instance is None && v@[i].class is Some,
{
    let mut v: Vec<Rule> = Vec::new();
    v.push(floating_class("Gimp", None));
    v.push(floating_class("Kate", None));
    v.push(floating_class("Gedit", None));
    v.push(floating_class("Gvim", None));
    v.push(floating_class("VirtualBox", None));
    v.push(floating_class("nm-connection-editor", None));
    v.push(floating_class("skype", None));
    v.push(floating_class("Thunderbird", Some("Authentication Required")));
    v.push(floating_class("Calendar", None));
    v
}


/// The number of commands in the command table.
pub const COMMANDS_LEN: usize = 7;

/// The command of index `i` in the command table: the menu, the terminal
/// (gnome-terminal), the screen lock, pause, volume down and up, and the
/// next track; none past the end.
pub fn command(i: usize) -> (argv: Option<Vec<&'static str>>)
    ensures
        argv is None <==> i >= COMMANDS_LEN,
        argv matches Some(v) ==> v@.len() == 1,
        i == 0 ==> (argv matches Some(v) && v@[0]@ == "dmenu_run"@),
        i == 1 ==> (argv matches Some(v) && v@[0]@ == "gnome-terminal"@),
        i == 2 ==> (argv matches Some(v) && v@[0]@ == "/home/phill/bin/dl"@),
        i == 3 ==> (argv matches Some(v) && v@[0]@ == "/home/phill/bin/pause"@),
        i == 4 ==> (argv matches Some(v) && v@[0]@ == "/home/phill/bin/vol_down"@),
        i == 5 ==> (argv matches Some(v) && v@[0]@ == "/home/phill/bin/vol_up"@),
        i == 6 ==> (argv matches Some(v) && v@[0]@ == "/home/phill/bin/forward"@),
{
    if i == 0 {
        Some(vec!["dmenu_run"])
    } else if i == 1 {
        Some(vec!["gnome-terminal"])
    } else if i == 2 {
        Some(vec!["/home/phill/bin/dl"])
    } else if i == 3 {
        Some(vec!["/home/phill/bin/pause"])
    } else if i == 4 {
        Some(vec!["/home/phill/bin/vol_down"])
    } else if i == 5 {
        Some(vec!["/home/phill/bin/vol_up"])
    } else if i == 6 {
        Some(vec!["/home/phill/bin/forward"])
    } else {
        None
    }
}

} // verus!
