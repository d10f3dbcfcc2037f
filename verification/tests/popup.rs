use unterm::popup::{
    acquire_step, kind_badge, list_cells, pick_preferred, selected_row, visible_rows, window,
    AcquireStep, Acquired, Popup, ShowAction, Window, MAX_ROWS,
};

fn lines(n: usize) -> Vec<String> {
    (0..n).map(|i| format!("Titem{i}")).collect()
}

#[test]
fn the_window_scrolls_but_stays_full() {
    assert_eq!(window(3, 0), Window { top: 0, visible: 3 });
    assert_eq!(window(3, 9), Window { top: 0, visible: 3 });
    assert_eq!(window(25, 4), Window { top: 4, visible: MAX_ROWS });
    assert_eq!(window(25, 99), Window { top: 15, visible: MAX_ROWS });
    assert_eq!(window(0, 1), Window { top: 0, visible: 0 });
}

#[test]
fn the_selected_row_shows_when_visible() {
    let win = window(25, 4);
    assert_eq!(selected_row(win, 4), Some(0));
    assert_eq!(selected_row(win, 13), Some(9));
    assert_eq!(selected_row(win, 14), None);
    assert_eq!(selected_row(win, 3), None);
}

#[test]
fn rows_have_badges() {
    let all: Vec<String> = ["Xrun", "", "Aa", "Nns", "\u{e9}x"].iter().map(|s| s.to_string()).collect();
    let (text, kinds) = visible_rows(&all, Window { top: 0, visible: 5 });
    assert_eq!(text, "M run\n\u{b7} \nv a\nN ns\n\u{e9} x");
    assert_eq!(kinds, vec!['X', ' ', 'A', 'N', '\u{e9}']);
    let (text, kinds) = visible_rows(&all, Window { top: 3, visible: 1 });
    assert_eq!(text, "N ns");
    assert_eq!(kinds, vec!['N']);
    assert_eq!(kind_badge('L'), 'v');
    assert_eq!(kind_badge('T'), 'T');
}

#[test]
fn the_size_fits_the_widest_line() {
    assert_eq!(list_cells(&lines(3)), (6, 3));
    assert_eq!(list_cells(&lines(12)), (7, 10));
    assert_eq!(list_cells(&["\u{1f600}\u{e9}".to_string()]), (2, 1));
    assert_eq!(list_cells(&[]), (8, 0));
}

#[test]
fn the_window_is_made_once_and_shown_when_drawn() {
    let mut p = Popup::new();
    assert!(matches!(p.show(""), ShowAction::Hide));
    assert!(!p.hide_window());
    match p.show("Aa\nBb") {
        ShowAction::Draw { create, lines } => {
            assert!(create);
            assert_eq!(lines, vec!["Aa".to_string(), "Bb".to_string()]);
        }
        ShowAction::Hide => panic!("there is something to show"),
    }
    p.created(true);
    assert!(matches!(p.show("x"), ShowAction::Draw { create: false, .. }));
    assert!(p.configure(80, 24));
    assert!(!p.configure(80, 24));
    assert!(p.configure(80, 0));
    assert_eq!(p.surface_size(), (80, 1));
    assert!(!p.drawn(false));
    assert!(p.drawn(true));
    assert!(!p.drawn(true));
    assert!(p.hide_window());
    assert!(p.drawn(true));
    p.gpu_error();
    assert_eq!(p, Popup::new());
    assert!(matches!(p.show("x"), ShowAction::Draw { create: true, .. }));
}

#[test]
fn frames_are_asked_for_twice_at_most() {
    assert_eq!(acquire_step(false, Acquired::Frame), AcquireStep::Draw);
    assert_eq!(acquire_step(true, Acquired::Frame), AcquireStep::Draw);
    assert_eq!(acquire_step(false, Acquired::Outdated), AcquireStep::Retry);
    assert_eq!(acquire_step(true, Acquired::Outdated), AcquireStep::Skip);
    assert_eq!(acquire_step(false, Acquired::Unavailable), AcquireStep::Skip);
}

#[test]
fn preferred_modes_come_first() {
    assert_eq!(pick_preferred(&[false, true, true]), Some(1));
    assert_eq!(pick_preferred(&[false, false]), Some(0));
    assert_eq!(pick_preferred(&[]), None);
}
