use unterm::panel::{
    block_at, cursor_to_offset, family_after, first_hit, glyph_selected, hit_button, line_starts,
    ButtonRows, PanelState,
};
use unterm::selection::{clamp_boundary, slice_text, TextPos};

fn at(block: usize, offset: usize) -> Option<TextPos> {
    Some(TextPos { block, offset })
}

fn laid(texts: &[&str]) -> PanelState {
    let mut p = PanelState::new(100, 50);
    p.lay(texts.iter().map(|t| t.to_string()).collect());
    p
}

#[test]
fn sizes_are_at_least_one_pixel() {
    let mut p = PanelState::new(0, 7);
    assert_eq!((p.width(), p.height()), (1, 7));
    assert!(!p.resize(1, 7));
    assert!(p.resize(2, 0));
    assert_eq!((p.width(), p.height()), (2, 1));
    assert!(!p.resize(2, 0));
}

#[test]
fn selection_follows_the_hits() {
    let mut p = laid(&["hello", "world"]);
    assert!(!p.has_selection());
    p.selection_update(at(1, 1));
    assert!(!p.has_selection());
    p.selection_begin(at(0, 3));
    assert!(!p.has_selection());
    assert_eq!(p.selected_text(), "");
    p.selection_update(at(1, 2));
    assert!(p.has_selection());
    assert_eq!(p.selected_text(), "lo\nwo");
    p.selection_update(None);
    assert_eq!(p.selected_text(), "lo\nwo");
    p.selection_update(at(0, 1));
    assert_eq!(p.selected_text(), "el");
    p.selection_begin(None);
    assert!(!p.has_selection());
    p.select_all();
    assert_eq!(p.selected_text(), "hello\nworld");
    p.selection_clear();
    assert_eq!(p.selected_text(), "");
}

#[test]
fn select_all_needs_blocks() {
    let mut p = laid(&[]);
    p.select_all();
    assert!(!p.has_selection());
    assert_eq!(p.selected_text(), "");
    let mut q = laid(&[""]);
    q.select_all();
    assert_eq!(q.selected_text(), "");
}

#[test]
fn stale_selections_are_clamped() {
    let mut p = laid(&["a\u{e9}b", "x"]);
    p.selection_begin(at(0, 2));
    p.selection_update(at(7, 9));
    assert_eq!(p.selected_text(), "\u{e9}b\nx");
    p.selection_begin(at(5, 0));
    p.selection_update(at(7, 9));
    assert_eq!(p.selected_text(), "");
    p.selection_begin(at(0, 99));
    p.selection_update(at(0, 98));
    assert_eq!(p.selected_text(), "");
}

#[test]
fn blocks_know_their_selected_bytes() {
    let mut p = laid(&["hello", "mid", "world"]);
    assert_eq!(p.block_selection(1), None);
    p.selection_begin(at(2, 4));
    p.selection_update(at(0, 2));
    assert_eq!(p.block_selection(0), Some((2, 5)));
    assert_eq!(p.block_selection(1), Some((0, 3)));
    assert_eq!(p.block_selection(2), Some((0, 4)));
    p.selection_begin(at(1, 1));
    p.selection_update(at(1, 2));
    assert_eq!(p.block_selection(0), None);
    assert_eq!(p.block_selection(1), Some((1, 2)));
    assert!(glyph_selected(10, 2, 3, (12, 20)));
    assert!(!glyph_selected(10, 1, 2, (12, 20)));
    assert!(!glyph_selected(10, 10, 11, (12, 20)));
}

#[test]
fn boundaries_are_clamped_down() {
    let s = "a\u{e9}\u{1f600}";
    let want = [0, 1, 1, 3, 3, 3, 3, 7, 7, 7];
    for (i, w) in want.iter().enumerate() {
        assert_eq!(clamp_boundary(s, i), *w);
    }
    assert_eq!(slice_text(s, 2, 6), "\u{e9}");
    assert_eq!(slice_text(s, 5, 1), "");
    assert_eq!(slice_text(s, 0, 100), s);
}

#[test]
fn lines_start_after_newlines() {
    let text = "h\u{e9}\n\nxyz";
    let lens: Vec<usize> = text.split('\n').map(|l| l.len()).collect();
    let starts = line_starts(&lens);
    assert_eq!(starts, vec![0, 4, 5]);
    for (i, line) in text.split('\n').enumerate() {
        assert_eq!(&text[starts[i]..starts[i] + line.len()], line);
    }
    assert_eq!(cursor_to_offset(&lens, 2, 1), 6);
    assert_eq!(cursor_to_offset(&lens, 9, 1), 1);
}

#[test]
fn hits_become_positions() {
    let p = laid(&["hello", "a\nbc"]);
    let pos = |block, offset| TextPos { block, offset };
    assert_eq!(p.hit_text(1, Some((1, 1)), false, &[1, 2]), pos(1, 3));
    assert_eq!(p.hit_text(1, Some((1, 99)), false, &[1, 2]), pos(1, 4));
    assert_eq!(p.hit_text(0, None, true, &[5]), pos(0, 0));
    assert_eq!(p.hit_text(0, None, false, &[5]), pos(0, 5));
}

#[test]
fn points_pick_blocks() {
    assert_eq!(block_at(&[]), None);
    assert_eq!(block_at(&[false, false]), Some(0));
    assert_eq!(block_at(&[true, true, false]), Some(1));
    assert_eq!(block_at(&[true, false, true]), Some(2));
    assert_eq!(block_at(&[false, true]), Some(0));
}

#[test]
fn first_hits_win() {
    assert_eq!(first_hit(&[false, true, true]), Some(1));
    assert_eq!(first_hit(&[]), None);
    assert_eq!(hit_button(&[false, false, true]), 2);
    assert_eq!(hit_button(&[false]), -1);
}

#[test]
fn buttons_wrap_into_rows() {
    let mut rows = ButtonRows::new();
    assert!(rows.is_empty());
    let starts: Vec<bool> = [true, false, true, true, false]
        .iter()
        .map(|o| rows.place(*o))
        .collect();
    assert_eq!(starts, vec![true, false, true, true, false]);
    assert!(!rows.is_empty());
    assert_eq!(rows.finish(), vec![vec![0, 1], vec![2], vec![3, 4]]);
    assert!(ButtonRows::new().finish().is_empty());
}

#[test]
fn labels_and_families_are_kept() {
    let mut p = PanelState::new(1, 1);
    p.set_buttons(vec!["Allow".to_string()]);
    assert_eq!(p.buttons(), &vec!["Allow".to_string()]);
    let (a, b) = (Some("A".to_string()), Some("B".to_string()));
    assert_eq!(family_after(a.clone(), "", b.clone()), a);
    assert_eq!(family_after(a.clone(), "f.ttf", b.clone()), b);
    assert_eq!(family_after(a, "bad.ttf", None), None);
}
