use unterm::patch::{apply_replacements, Replacement};
use unterm::text::{join, same_text, split};

#[test]
fn split_and_join_undo_each_other() {
    for s in ["", "\n", "a", "a\nb", "\na\n\nb\n", "h\u{e9}\n\u{1f600}"] {
        let parts = split(s, '\n');
        let want: Vec<String> = s.split('\n').map(|p| p.to_string()).collect();
        assert_eq!(parts, want);
        assert_eq!(join(&parts, '\n'), s);
    }
    assert_eq!(join(&[], '\n'), "");
}

#[test]
fn texts_are_compared_whole() {
    assert!(same_text("Up", "Up"));
    assert!(!same_text("Up", "Upp"));
    assert!(!same_text("Up", "up"));
}

#[test]
fn replacements_apply_bottom_up() {
    let rep = |start: usize, end: usize, lines: &[&str]| Replacement {
        start,
        end,
        lines: lines.iter().map(|l| l.to_string()).collect(),
    };
    let reps = vec![rep(3, 4, &["D", "D2"]), rep(0, 1, &[]), rep(9, 12, &["end"])];
    assert_eq!(apply_replacements("a\nb\nc\nd", reps), "b\nc\nD\nD2\nend");
    assert_eq!(apply_replacements("a\nb", vec![rep(1, 0, &["x"])]), "a\nx\nb");
    assert_eq!(apply_replacements("a", vec![]), "a");
}

#[test]
fn replacements_at_one_line_keep_their_order() {
    let rep = |lines: &[&str]| Replacement {
        start: 1,
        end: 1,
        lines: lines.iter().map(|l| l.to_string()).collect(),
    };
    assert_eq!(apply_replacements("a\nb", vec![rep(&["x"]), rep(&["y"])]), "a\nx\ny\nb");
}
