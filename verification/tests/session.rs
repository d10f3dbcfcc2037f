use unterm::session::{clean, pending_text, resumed, snapshot_text, status_text};
use unterm::transcript::{RS, US};

#[test]
fn nul_is_dropped() {
    assert_eq!(clean("a\0b\0"), "ab");
    assert_eq!(clean("plain"), "plain");
    assert_eq!(snapshot_text(Some("x\0y")), "xy");
    assert_eq!(snapshot_text(None), "");
}

#[test]
fn status_says_why_it_failed() {
    assert_eq!(status_text(Some("ready"), ""), "ready");
    assert_eq!(status_text(None, "no such file\0"), "spawn failed: no such file");
}

#[test]
fn pending_permissions_offer_four_options() {
    let text = pending_text(Some("Run ls?"));
    let parts: Vec<&str> = text.split(RS).collect();
    assert_eq!(parts[0], "Run ls?");
    let options: Vec<Vec<&str>> = parts[1..].iter().map(|p| p.split(US).collect()).collect();
    assert_eq!(
        options,
        vec![
            vec!["allow_once", "Allow", "allow_once"],
            vec!["allow_always", "Always allow", "allow_always"],
            vec!["reject_once", "Deny", "reject_once"],
            vec!["reject_always", "Always deny", "reject_always"],
        ]
    );
    assert_eq!(pending_text(None), "");
}

#[test]
fn an_empty_id_is_not_resumed() {
    assert_eq!(resumed(Some("abc")), Some("abc"));
    assert_eq!(resumed(Some("")), None);
    assert_eq!(resumed(None), None);
}
