use dwm::wm::bar::{bar_click, Click};
use dwm::wm::actions::Relayout;
use dwm::wm::config::{command, default_rules, LT_MONOCLE, LT_TILE};
use dwm::wm::model::Wm;
use dwm::wm::mouse::drag_size;
use dwm::wm::screens::unique_screens;

fn managed_one(w: &mut Wm) -> usize {
    w.manage(100, 10, 10, 200, 100, 1, None, b"term".to_vec(), None, &[], &default_rules())
}

#[test]
fn one_screen_without_xinerama() {
    let mut w = Wm::new(1920, 1080, 16, 1);
    assert!(w.update_geom(&None, None));
    let ms = w.mon_list();
    assert_eq!(ms.len(), 1);
    let m = &w.mons[ms[0]];
    assert_eq!((m.mw, m.mh, m.ww), (1920, 1080, 1920));
    assert_eq!((m.wy, m.wh, m.by), (16, 1064, 0));
    assert_eq!(w.selmon, Some(ms[0]));
    assert!(!w.update_geom(&None, None));
}

#[test]
fn screens_grow_the_monitor_list() {
    let mut w = Wm::new(2560, 1024, 16, 1);
    let screens = vec![(0, 0, 1280, 1024), (1280, 0, 1280, 1024), (0, 0, 1280, 1024)];
    assert!(w.update_geom(&Some(screens), Some((1300, 100))));
    let ms = w.mon_list();
    assert_eq!(ms.len(), 2);
    assert_eq!(w.mons[ms[1]].mx, 1280);
    assert_eq!(w.mons[ms[1]].num, 1);
    assert_eq!(w.selmon, Some(ms[1]));
    let same = vec![(0, 0, 1280, 1024), (1280, 0, 1280, 1024)];
    assert!(!w.update_geom(&Some(same), None));
}

#[test]
fn fewer_screens_fold_clients_into_the_first_monitor() {
    let mut w = Wm::new(2560, 1024, 16, 1);
    let screens = vec![(0, 0, 1280, 1024), (1280, 0, 1280, 1024)];
    w.update_geom(&Some(screens), Some((1300, 100)));
    let ms = w.mon_list();
    let c = managed_one(&mut w);
    assert_eq!(w.clients[c].mon, ms[1]);
    let tags = w.clients[c].tags;
    assert!(w.update_geom(&Some(vec![(0, 0, 2560, 1024)]), None));
    let ms2 = w.mon_list();
    assert_eq!(ms2, vec![ms[0]]);
    assert_eq!(w.clients[c].mon, ms[0]);
    assert_eq!(w.clients[c].tags, tags);
    assert_eq!(w.client_list(ms[0]), vec![c]);
    assert_eq!(w.selmon, Some(ms[0]));
}

#[test]
fn removing_an_empty_monitor_is_not_a_change() {
    let mut w = Wm::new(2560, 1024, 16, 1);
    w.update_geom(&Some(vec![(0, 0, 1280, 1024), (1280, 0, 1280, 1024)]), None);
    assert!(!w.update_geom(&Some(vec![(0, 0, 1280, 1024)]), None));
    assert_eq!(w.mon_list().len(), 1);
}

#[test]
fn duplicate_screens_count_once() {
    let u = unique_screens(&vec![(1, 2, 3, 4), (1, 2, 3, 4), (0, 0, 5, 5), (1, 2, 3, 4)]);
    assert_eq!(u, vec![(1, 2, 3, 4), (0, 0, 5, 5)]);
}

#[test]
fn clicks_on_the_bar() {
    let tw = vec![10; 9];
    assert_eq!(bar_click(&tw, 20, 50, 0, 500, 5), (Click::TagBar, 1));
    assert_eq!(bar_click(&tw, 20, 50, 0, 500, 15), (Click::TagBar, 2));
    assert_eq!(bar_click(&tw, 20, 50, 0, 500, 89), (Click::TagBar, 256));
    assert_eq!(bar_click(&tw, 20, 50, 0, 500, 95), (Click::LtSymbol, 0));
    assert_eq!(bar_click(&tw, 20, 50, 0, 500, 460), (Click::StatusText, 0));
    assert_eq!(bar_click(&tw, 20, 50, 0, 500, 200), (Click::WinTitle, 0));
}

#[test]
fn bar_layout_on_the_selected_monitor() {
    let mut w = Wm::new(500, 300, 16, 1);
    w.update_geom(&None, None);
    let m = w.mon_list()[0];
    let c = managed_one(&mut w);
    let p = w.bar_plan(m, &vec![10; 9], 20, 50);
    assert_eq!(w.blw, 20);
    assert_eq!(p.tags.len(), 9);
    assert_eq!(p.tags[3].x, 30);
    assert!(p.tags[0].shown && !p.tags[1].shown);
    assert!(p.tags[0].occupied && !p.tags[1].occupied);
    assert!(!p.tags[0].urgent);
    assert_eq!(p.lt_x, 90);
    assert_eq!(p.status, Some((450, 50)));
    assert_eq!(p.title, Some((110, 340)));
    assert_eq!(w.tag_marks(m), (w.clients[c].tags, 0));
}

#[test]
fn dragging_the_corner_sizes_the_window() {
    assert_eq!(drag_size(100, 100, 1, 300, 250), (199, 149));
    assert_eq!(drag_size(100, 100, 1, 50, 50), (1, 1));
}

#[test]
fn another_layout_takes_the_other_slot() {
    let mut w = Wm::new(500, 300, 16, 1);
    w.update_geom(&None, None);
    let m = w.mon_list()[0];
    let s0 = w.mons[m].sellt;
    assert_eq!(w.mons[m].lt[s0], LT_TILE);
    w.setlayout(Some(LT_MONOCLE));
    assert_eq!(w.mons[m].sellt, 1 - s0);
    assert_eq!(w.mons[m].lt[1 - s0], LT_MONOCLE);
    assert_eq!(w.mons[m].lt[s0], LT_TILE);
    assert_eq!(w.mons[m].ltsymbol, b"[M]".to_vec());
    w.setlayout(None);
    assert_eq!(w.mons[m].sellt, s0);
    assert_eq!(w.mons[m].lt[s0], LT_TILE);
}

#[test]
fn the_terminal_is_gnome_terminal() {
    assert_eq!(command(1), Some(vec!["gnome-terminal"]));
    assert_eq!(command(0), Some(vec!["dmenu_run"]));
    assert_eq!(command(7), None);
}

#[test]
fn floating_titles_get_a_square() {
    let mut w = Wm::new(500, 300, 16, 1);
    w.update_geom(&None, None);
    let m = w.mon_list()[0];
    let c = managed_one(&mut w);
    w.focus(Some(c));
    assert_eq!(w.mons[m].sel, Some(c));
    assert_eq!(w.bar_plan(m, &vec![10; 9], 20, 50).square, None);
    w.clients[c].isfloating = true;
    assert_eq!(w.bar_plan(m, &vec![10; 9], 20, 50).square, Some(false));
    let (mx, my, mw, mh) = (w.mons[m].mx, w.mons[m].my, w.mons[m].mw, w.mons[m].mh);
    w.clients[c].x = mx;
    w.clients[c].y = my;
    w.clients[c].w = mw;
    w.clients[c].h = mh;
    assert_eq!(w.bar_plan(m, &vec![10; 9], 20, 50).square, Some(true));
}

#[test]
fn a_client_dragged_onto_another_monitor_goes_there() {
    let mut w = Wm::new(2560, 1024, 16, 1);
    w.update_geom(&Some(vec![(0, 0, 1280, 1024), (1280, 0, 1280, 1024)]), Some((1300, 100)));
    let ms = w.mon_list();
    let c = managed_one(&mut w);
    assert_eq!(w.clients[c].mon, ms[1]);
    assert!(w.drag_end(ms[1], c).is_none());
    w.clients[c].x = 100;
    let (t, r, f) = w.drag_end(ms[1], c).unwrap();
    assert_eq!(t, ms[0]);
    assert!(r == Relayout::All);
    assert_eq!(w.clients[c].mon, ms[0]);
    assert_eq!(w.selmon, Some(ms[0]));
    assert_eq!(f.focused, Some(c));
}
