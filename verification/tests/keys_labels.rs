use dwm::text::fit_label;
use dwm::wl::bar::bar_layout;
use dwm::wl::keys::{key_binding, wl_keys};
use dwm::wl::windows::{focused_window, tiled_on_monitor, togglefloating, visible_on_monitor, windows_on_monitor};
use dwm::wl::{ClientData, Dwm, Monitor, Rect};
use dwm::wm::actions::Arg;
use dwm::wm::bar::Click;
use dwm::wm::keys::{build_buttons, build_keys, button_matches, cleanmask, key_matches, Action, MOD_KEY, SHIFT};
use dwm::wm::model::Wm;

#[test]
fn labels_fit_their_cells() {
    let w = vec![10; 6];
    assert_eq!(fit_label(b"abcdef", &w, 5, 100), b"abcdef".to_vec());
    assert_eq!(fit_label(b"abcdef", &w, 5, 45), b"a...".to_vec());
    assert_eq!(fit_label(b"abcdef", &w, 5, 25), b"..".to_vec());
    assert_eq!(fit_label(b"abcdef", &w, 5, 10), Vec::<u8>::new());
}

#[test]
fn clean_masks_drop_lock_bits() {
    assert_eq!(cleanmask(0x10, 0x8 | 0x2 | 0x10 | 0x100), 0x8);
    assert_eq!(cleanmask(0, 0x5), 0x5);
}

#[test]
fn keys_fire_by_keysym_and_clean_modifiers() {
    let keys = build_keys();
    assert_eq!(keys.len(), 63);
    let hits = key_matches(&keys, 0x10, 0x6a, MOD_KEY | 0x10 | 0x2);
    assert_eq!(hits.len(), 1);
    assert_eq!(hits[0].action, Action::FocusStack);
    assert_eq!(hits[0].arg, Arg::I(1));
    let hits = key_matches(&keys, 0, 0x32, MOD_KEY | SHIFT);
    assert_eq!(hits.len(), 1);
    assert_eq!((hits[0].action, hits[0].arg), (Action::Tag, Arg::U(2)));
    assert!(key_matches(&keys, 0, 0x6a, 0).is_empty());
}

#[test]
fn tag_bar_buttons_take_the_clicked_tag() {
    let bs = build_buttons();
    let r = button_matches(&bs, 0, Click::TagBar, 1, 0, Arg::U(4));
    assert_eq!(r, vec![(Action::View, Arg::U(4))]);
    let r = button_matches(&bs, 0, Click::LtSymbol, 3, 0, Arg::Void);
    assert_eq!(r, vec![(Action::SetLayout, Arg::Layout(2))]);
}

#[test]
fn keycode_tables() {
    let mut w = Wm::new(100, 100, 10, 1);
    w.min_keycode = 8;
    w.keysyms_per_keycode = 2;
    w.keysym_table = vec![0x61, 0x41, 0x62, 0x42, 0xff7f, 0];
    assert_eq!(w.keysym_to_keycode(0x42), Some(9));
    assert_eq!(w.keysym_to_keycode(0x63), None);
    assert_eq!(w.keycode_to_keysym(9, 1), 0x42);
    assert_eq!(w.keycode_to_keysym(7, 0), 0);
    assert_eq!(w.keycode_to_keysym(11, 0), 0);
    let nl = w.keysym_to_keycode(0xff7f);
    assert_eq!(nl, Some(10));
    let map = vec![0, 0, 0, 0, 0, 0, 0, 0, 10, 0, 0, 0, 0, 0, 0, 0];
    w.update_numlockmask(&map, nl);
    assert_eq!(w.numlockmask, 0x10);
    w.quit();
    assert!(!w.running);
}

fn windows() -> Vec<ClientData> {
    let a = ClientData { tags: 1, monitor: 0, focus_order: 3, ..ClientData::default() };
    let b = ClientData { tags: 2, monitor: 0, ..ClientData::default() };
    let c = ClientData { tags: 1, monitor: 0, isfloating: true, focus_order: 5, ..ClientData::default() };
    let d = ClientData { tags: 1, monitor: 1, ..ClientData::default() };
    vec![a, b, c, d]
}

#[test]
fn window_lists_of_a_monitor() {
    let screen = Rect { x: 0, y: 0, w: 800, h: 600 };
    let mut s = Dwm { monitors: vec![Monitor::new(0, screen, 0)], selmon: 0, running: true, focus_counter: 0 };
    let ws = windows();
    assert_eq!(windows_on_monitor(&ws, 0), vec![0, 1, 2]);
    assert_eq!(visible_on_monitor(&s, &ws, 0), vec![0, 2]);
    assert_eq!(tiled_on_monitor(&s, &ws, 0), vec![0]);
    assert_eq!(focused_window(&s, &ws), None);
    s.monitors[0].sel_focus_order = Some(5);
    assert_eq!(focused_window(&s, &ws), Some(2));
    assert_eq!(s.outputs_bounding_size(), (800, 600));
    assert_eq!(s.monitor_at(900, 10), 0);
}

#[test]
fn floating_restores_the_stored_place() {
    let mut c = ClientData { stored_x: 5, stored_y: 6, stored_w: 50, stored_h: 300, ..ClientData::default() };
    assert_eq!(togglefloating(&mut c), Some(Rect { x: 5, y: 6, w: 100, h: 300 }));
    assert!(c.isfloating);
    assert_eq!(togglefloating(&mut c), None);
    assert!(!c.isfloating);
}

#[test]
fn compositor_bar_layout() {
    let p = bar_layout(&vec![8; 9], 14, 1, 2, 20, 30, 400, true);
    assert_eq!(p.tags[1].x, 22);
    assert!(p.tags[0].shown && !p.tags[1].shown && p.tags[1].urgent);
    assert_eq!(p.lt_x, 198);
    assert_eq!(p.status_x, 356);
    assert_eq!(p.title, Some((232, 124)));
}

#[test]
fn compositor_keys() {
    let keys = wl_keys();
    let k = key_binding(&keys, 8 | 2 | 16, &vec![0x71, 0x6a]).unwrap();
    assert_eq!((k.action, k.arg), (Action::FocusStack, Arg::I(1)));
    assert!(key_binding(&keys, 0, &vec![0x6a]).is_none());
}

#[test]
fn key_tables_agree_and_end_in_quit() {
    let x = build_keys();
    let w = wl_keys();
    assert_eq!(x, w);
    assert_eq!(x.len(), 63);
    assert_eq!(x[62].mod_, MOD_KEY | SHIFT);
    assert_eq!((x[62].keysym, x[62].action), (0x71, Action::Quit));
    // The second binding of the third tag key toggles the tag's view.
    let k = x[26 + 4 * 2 + 1];
    assert_eq!((k.keysym, k.action, k.arg), (0x33, Action::ToggleView, Arg::U(4)));
    let b = build_buttons();
    assert_eq!(b.len(), 11);
    assert_eq!((b[4].click, b[4].mask, b[4].button, b[4].action), (Click::ClientWin, MOD_KEY, 1, Action::MoveMouse));
}
