use dwm::wl::{apply_size_hints, cycle_index, manage_new_window, monocle, snap, tag, tile, toggletag, wl_rules,
    ClientData, Dwm, Monitor, Rect, BAR_HEIGHT};
use dwm::wm::actions::Arg;

fn screen() -> Rect {
    Rect { x: 0, y: 0, w: 800, h: 600 }
}

fn state() -> Dwm {
    Dwm { monitors: vec![Monitor::new(7, screen(), 0)], selmon: 0, running: true, focus_counter: 0 }
}

#[test]
fn client_data_defaults() {
    let c = ClientData::default();
    assert_eq!(c.tags, 1);
    assert_eq!(c.monitor, 0);
    assert_eq!(c.bw, 3);
    assert!(!c.isfloating);
    assert_eq!(c.mina, 0);
    assert_eq!(c.focus_order, 0);
}

#[test]
fn size_hints_round_to_increments_and_clamp() {
    let mut c = ClientData::default();
    c.minw = 10;
    c.minh = 10;
    c.incw = 5;
    c.inch = 5;
    c.maxw = 100;
    let (mut w, mut h) = (53, 47);
    let r = apply_size_hints(&c, &mut w, &mut h, &|_a: u32, _b: u32, w: i32, h: i32| (w, h));
    assert!(r);
    assert_eq!((w, h), (50, 45));
    let (mut w, mut h) = (233, 4);
    apply_size_hints(&c, &mut w, &mut h, &|_a: u32, _b: u32, w: i32, h: i32| (w, h));
    assert_eq!((w, h), (100, 10));
}

#[test]
fn size_hints_use_the_aspect_step_only_with_both_bounds() {
    let mut c = ClientData::default();
    c.basew = 2;
    c.baseh = 2;
    let halve = |_a: u32, _b: u32, w: i32, h: i32| (w, h / 2);
    let (mut w, mut h) = (102, 82);
    apply_size_hints(&c, &mut w, &mut h, &halve);
    assert_eq!((w, h), (102, 82));
    c.mina = 1.0f32.to_bits();
    c.maxa = 1.0f32.to_bits();
    let (mut w, mut h) = (102, 82);
    apply_size_hints(&c, &mut w, &mut h, &halve);
    assert_eq!((w, h), (102, 42));
}

#[test]
fn new_monitor_keeps_the_bar_out_of_the_work_area() {
    let m = Monitor::new(7, screen(), 2);
    assert_eq!(m.output, 7);
    assert_eq!(m.num, 2);
    assert_eq!(m.work_area, Rect { x: 0, y: BAR_HEIGHT, w: 800, h: 600 - BAR_HEIGHT });
    assert_eq!(m.bar_y(), 0);
    assert_eq!(m.ltsymbol, b"[]=".to_vec());
    assert_eq!(m.lts.len(), 10);
    assert!(m.is_visible_tagset(1));
    assert!(!m.is_visible_tagset(2));
    let mut b = Monitor::new(7, screen(), 2);
    b.topbar = false;
    b.update_work_area(BAR_HEIGHT);
    assert_eq!(b.work_area, Rect { x: 0, y: 0, w: 800, h: 584 });
    assert_eq!(b.bar_y(), 584);
}

#[test]
fn set_layout_switches_slots_and_remembers_per_tag() {
    let mut m = Monitor::new(0, screen(), 0);
    m.set_layout(Some(2));
    assert_eq!(m.sellt, 1);
    assert_eq!(m.lt, [0, 2]);
    assert_eq!(m.lts[1], 2);
    assert_eq!(m.ltsymbol, b"[M]".to_vec());
    m.set_layout(None);
    assert_eq!(m.sellt, 0);
    assert_eq!(m.ltsymbol, b"[]=".to_vec());
}

#[test]
fn view_shows_tags_and_back() {
    let mut d = state();
    assert!(d.view(Arg::U(4)));
    let m = &d.monitors[0];
    assert_eq!(m.seltags, 1);
    assert_eq!(m.tagset, [1, 4]);
    assert_eq!(m.curtag, 3);
    assert_eq!(m.prevtag, 1);
    assert!(!d.view(Arg::U(4)));
    assert!(d.view(Arg::Void));
    assert_eq!(d.monitors[0].seltags, 0);
    assert_eq!(d.monitors[0].tagset, [1, 4]);
    assert!(!d.view(Arg::I(3)));
}

#[test]
fn toggleview_twice_restores() {
    let mut d = state();
    assert!(d.toggleview(Arg::U(6)));
    assert_eq!(d.monitors[0].tagset[0], 7);
    assert!(d.toggleview(Arg::U(6)));
    assert_eq!(d.monitors[0].tagset[0], 1);
    assert!(!d.toggleview(Arg::U(1)));
}

#[test]
fn togglebar_moves_the_work_area() {
    let mut d = state();
    d.togglebar();
    assert!(!d.monitors[0].showbar);
    assert!(!d.monitors[0].showbars[1]);
    assert_eq!(d.monitors[0].work_area, screen());
    assert!(d.setlayout(Arg::Layout(1)));
    assert!(!d.setlayout(Arg::U(1)));
    d.reset_pertag(0);
    assert_eq!(d.monitors[0].lts, vec![0; 10]);
    assert!(d.monitors[0].showbars[1]);
    assert_eq!(d.next_focus_order(), 1);
    d.quit();
    assert!(!d.running);
}

#[test]
fn tags_on_windows() {
    let mut c = ClientData::default();
    assert!(tag(&mut c, Arg::U(0x400 | 8)));
    assert_eq!(c.tags, 8);
    assert!(!tag(&mut c, Arg::U(0x400)));
    assert!(toggletag(&mut c, Arg::U(3)));
    assert_eq!(c.tags, 11);
    assert!(toggletag(&mut c, Arg::U(3)));
    assert_eq!(c.tags, 8);
    assert!(toggletag(&mut c, Arg::U(8)));
    assert_eq!(c.tags, 8);
}

#[test]
fn cycling_wraps_both_ways() {
    assert_eq!(cycle_index(0, -1, 3), 2);
    assert_eq!(cycle_index(2, 1, 3), 0);
    assert_eq!(cycle_index(1, 5, 3), 0);
    assert_eq!(cycle_index(cycle_index(1, 4, 3), -4, 3), 1);
}

#[test]
fn snapping_to_monitor_edges() {
    let mut r = Rect { x: 5, y: 3, w: 100, h: 100 };
    snap(screen(), &mut r);
    assert_eq!((r.x, r.y), (0, 0));
    let mut r = Rect { x: 695, y: 200, w: 100, h: 50 };
    snap(screen(), &mut r);
    assert_eq!((r.x, r.y), (700, 200));
    let mut r = Rect { x: 300, y: 200, w: 100, h: 50 };
    snap(screen(), &mut r);
    assert_eq!((r.x, r.y), (300, 200));
}

#[test]
fn tiling_places_master_and_stack() {
    let wa = Rect { x: 0, y: 16, w: 800, h: 584 };
    let v = tile(wa, 3, 440);
    assert_eq!(v.len(), 3);
    assert_eq!(v[0], Rect { x: 0, y: 16, w: 434, h: 578 });
    assert_eq!(v[1], Rect { x: 440, y: 16, w: 354, h: 286 });
    assert_eq!(v[2], Rect { x: 440, y: 308, w: 354, h: 286 });
    let one = tile(wa, 1, 440);
    assert_eq!(one, vec![Rect { x: 0, y: 16, w: 794, h: 578 }]);
    assert!(tile(wa, 0, 440).is_empty());
}

#[test]
fn monocle_counts_windows() {
    let mut m = Monitor::new(0, screen(), 0);
    let v = monocle(&mut m, 12, 12);
    assert_eq!(v.len(), 12);
    assert_eq!(v[0], Rect { x: 0, y: 16, w: 794, h: 578 });
    assert_eq!(m.ltsymbol, b"[12]".to_vec());
    let mut m = Monitor::new(0, screen(), 0);
    assert!(monocle(&mut m, 0, 0).is_empty());
    assert_eq!(m.ltsymbol, b"[]=".to_vec());
}

#[test]
fn rules_place_new_windows() {
    let mut d = state();
    d.view(Arg::U(2));
    let rules = wl_rules();
    let mut c = ClientData::default();
    let m = manage_new_window(&d, &mut c, &rules, b"Gimp", b"untitled", false);
    assert_eq!(m, 0);
    assert!(c.isfloating);
    assert_eq!(c.tags, 2);
    let mut c = ClientData::default();
    manage_new_window(&d, &mut c, &rules, b"Gimp-2.10", b"x", false);
    assert!(!c.isfloating);
    assert_eq!(c.tags, 2);
    assert_eq!(d.monitor_index_for_window(&ClientData { monitor: 5, ..ClientData::default() }, None), 0);
    assert_eq!(d.monitor_index_for_window(&ClientData { monitor: 5, ..ClientData::default() }, Some(7)), 0);
    assert_eq!(d.monitor_index_for_window(&ClientData { monitor: 5, ..ClientData::default() }, Some(3)), 0);
}

#[test]
fn dialogs_float_without_a_rule() {
    let d = state();
    let rules = wl_rules();
    let mut c = ClientData::default();
    manage_new_window(&d, &mut c, &rules, b"editor", b"Save as", true);
    assert!(c.isfloating);
    let mut c = ClientData::default();
    manage_new_window(&d, &mut c, &rules, b"editor", b"main", false);
    assert!(!c.isfloating);
}

#[test]
fn viewing_the_shown_tag_resets_the_per_tag_settings() {
    let mut d = state();
    assert!(d.setlayout(Arg::Layout(2)));
    d.togglebar();
    assert_eq!(d.monitors[0].lts[1], 2);
    assert!(!d.monitors[0].showbars[1]);
    assert!(!d.view(Arg::U(1)));
    assert_eq!(d.monitors[0].lts, vec![0; 10]);
    assert!(d.monitors[0].showbars.iter().all(|b| *b));
    // The settings in use stay until a tag is viewed.
    assert_eq!(d.monitors[0].lt[d.monitors[0].sellt], 2);
}

#[test]
fn the_split_of_a_tag_comes_back_with_it() {
    let mut d = state();
    d.monitors[0].mfact = 0x3f000000;
    d.monitors[0].mfacts[1] = 0x3f000000;
    assert!(d.view(Arg::U(2)));
    assert_ne!(d.monitors[0].mfact, 0x3f000000);
    assert!(d.view(Arg::U(1)));
    assert_eq!(d.monitors[0].mfact, 0x3f000000);
    assert_eq!(d.monitors[0].curtag, 1);
}

#[test]
fn monocle_shows_the_visible_count() {
    let mut d = state();
    let ws = vec![
        ClientData::default(),
        ClientData { isfloating: true, ..ClientData::default() },
        ClientData { tags: 2, ..ClientData::default() },
    ];
    let v = d.monocle_on(&ws, 0);
    assert_eq!(v.len(), 1);
    assert_eq!(v[0].0, 0);
    assert_eq!(d.monitors[0].ltsymbol, b"[2]".to_vec());
}

#[test]
fn bar_rows_and_window_area_split_the_output() {
    let mut m = Monitor::new(0, screen(), 0);
    m.update_work_area(BAR_HEIGHT);
    assert_eq!(m.bar_y(), 0);
    assert_eq!((m.work_area.y, m.work_area.h), (16, 584));
    m.topbar = false;
    m.update_work_area(BAR_HEIGHT);
    assert_eq!(m.bar_y(), 584);
    assert_eq!((m.work_area.y, m.work_area.h), (0, 584));
}
