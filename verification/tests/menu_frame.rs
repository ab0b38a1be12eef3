use dwm::menu::frame::{DrawOp, Label, Palette};
use dwm::menu::keysyms::to_lower;
use dwm::menu::matching::{nextrune, Item};
use dwm::menu::render::paint_rect;
use dwm::menu::state::Menu;

fn pal() -> Palette {
    Palette { normbg: 1, normfg: 2, selbg: 3, selfg: 4 }
}

fn menu(lines: i32, words: &[&str]) -> Menu {
    let mut m = Menu::new(lines, false, 20, 8, 8);
    let items: Vec<Vec<u8>> = words.iter().map(|w| w.as_bytes().to_vec()).collect();
    let n = items.len();
    m.read_items(items, vec![40; n], vec![40; n]);
    m.recompute_geometry(300, None);
    m.do_match(false);
    m
}

#[test]
fn lower_case_keysyms() {
    assert_eq!(to_lower(0x41), 0x61);
    assert_eq!(to_lower(0xc0), 0xe0);
    assert_eq!(to_lower(0xd7), 0xd7);
    assert_eq!(to_lower(0x61), 0x61);
    for k in [0x41u32, 0x5a, 0xde, 0x7a, 0x100] {
        assert_eq!(to_lower(to_lower(k)), to_lower(k));
    }
}

#[test]
fn runes_skip_continuation_bytes() {
    let t = "aéb".as_bytes();
    assert_eq!(nextrune(t, 1, 1), 3);
    assert_eq!(nextrune(t, 3, -1), 1);
    assert_eq!(nextrune(t, 0, 1), 1);
}

#[test]
fn items_start_unlinked() {
    let it = Item::default();
    assert!(it.text.is_empty() && it.left.is_none() && it.right.is_none());
}

#[test]
fn vertical_frame_lists_the_page() {
    let m = menu(2, &["one", "two", "three"]);
    let ops = m.draw(false, 10, 0, pal());
    assert_eq!(ops[0], DrawOp::Fill { x: 0, y: 0, w: 300, h: 60, color: 1 });
    assert_eq!(ops[1], DrawOp::Text { x: 5, y: 5, label: Label::Input, color: 2 });
    assert_eq!(ops[2], DrawOp::Fill { x: 5, y: 5, w: 1, h: 10, color: 2 });
    assert_eq!(ops[3], DrawOp::Fill { x: 0, y: 20, w: 300, h: 20, color: 3 });
    assert_eq!(ops[4], DrawOp::Text { x: 5, y: 25, label: Label::Item(0), color: 4 });
    assert_eq!(ops[5], DrawOp::Fill { x: 0, y: 40, w: 300, h: 20, color: 1 });
    assert_eq!(ops.len(), 7);
}

#[test]
fn horizontal_frame_with_prompt() {
    let mut m = menu(0, &["one", "two", "three", "four", "five", "six"]);
    m.recompute_geometry(300, Some(30));
    m.do_match(false);
    let ops = m.draw(true, 10, 0, pal());
    assert_eq!(ops[1], DrawOp::Fill { x: 0, y: 0, w: 30, h: 20, color: 3 });
    assert_eq!(ops[2], DrawOp::Text { x: 5, y: 5, label: Label::Prompt, color: 4 });
    assert!(ops.iter().any(|o| matches!(o, DrawOp::Text { label: Label::Right, .. })));
    assert!(!ops.iter().any(|o| matches!(o, DrawOp::Text { label: Label::Left, .. })));
}

#[test]
fn painting_a_rectangle_writes_argb_bytes() {
    let mut buf = vec![0u8; 4 * 4 * 2];
    paint_rect(&mut buf, 16, 4, 2, 1, 0, 2, 1, 0x11223344);
    assert_eq!(&buf[4..8], &[0x44, 0x33, 0x22, 0x11]);
    assert_eq!(&buf[0..4], &[0, 0, 0, 0]);
    assert_eq!(&buf[12..16], &[0, 0, 0, 0]);
    assert_eq!(&buf[16..20], &[0, 0, 0, 0]);
}

#[test]
fn a_character_forward_and_back_is_the_same_place() {
    let t = vec![0x61u8, 0xc3, 0xa9, 0x62];
    let f = dwm::menu::matching::nextrune(&t, 1, 1);
    assert_eq!(f, 3);
    assert_eq!(dwm::menu::matching::nextrune(&t, f as usize, -1), 1);
    assert_eq!(dwm::menu::matching::nextrune(&t, 0, 1), 1);
}

fn listed(m: &Menu) -> Vec<usize> {
    let mut v = Vec::new();
    let mut c = m.matches;
    while let Some(i) = c {
        v.push(i);
        c = m.items[i].right;
    }
    v
}

#[test]
fn narrowing_the_matches_agrees_with_matching_afresh() {
    let words = ["bab", "ab", "xab", "abc", "zz", "ba"];
    let mut m = menu(0, &words);
    m.text = b"a".to_vec();
    m.cursor = 1;
    m.do_match(false);
    m.text = b"ab".to_vec();
    m.cursor = 2;
    m.do_match(true);
    let narrowed = listed(&m);
    let mut fresh = menu(0, &words);
    fresh.text = b"ab".to_vec();
    fresh.cursor = 2;
    fresh.do_match(false);
    let full = listed(&fresh);
    assert_eq!(narrowed, vec![1, 3, 0, 2]);
    let (mut a, mut b) = (narrowed.clone(), full.clone());
    a.sort();
    b.sort();
    assert_eq!(a, b);
}
