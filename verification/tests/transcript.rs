use unterm::transcript::{parse_blocks, Role, RS, US};

fn show(text: &str) -> Vec<(Role, String)> {
    parse_blocks(text).into_iter().map(|b| (b.role, b.text)).collect()
}

#[test]
fn plain_text_is_one_agent_block() {
    assert_eq!(show("hi\nthere"), vec![(Role::Agent, "hi\nthere".to_string())]);
    assert!(show("").is_empty());
}

#[test]
fn tagged_blocks_come_back() {
    let text = format!("u{US}ask{RS}t{US}hm{RS}x{US}ls{RS}a{US}done{RS}?{US}odd");
    let want: Vec<(Role, String)> = [
        (Role::User, "ask"),
        (Role::Thought, "hm"),
        (Role::Tool, "ls"),
        (Role::Agent, "done"),
        (Role::Agent, "odd"),
    ]
    .iter()
    .map(|(r, t)| (*r, t.to_string()))
    .collect();
    assert_eq!(show(&text), want);
}

#[test]
fn odd_chunks() {
    // Empty chunks are dropped, a chunk without a unit separator has no text, and only
    // the first unit separator counts.
    assert_eq!(show(&format!("{RS}{RS}")), vec![]);
    assert_eq!(show(&format!("user{RS}")), vec![(Role::User, String::new())]);
    assert_eq!(show(&format!("{US}b")), vec![(Role::Agent, "b".to_string())]);
    assert_eq!(
        show(&format!("xyz{US}a{US}b")),
        vec![(Role::Tool, format!("a{US}b"))]
    );
}

#[test]
fn roles_have_cards_and_colors() {
    let c = (1, 2, 3, 255);
    assert!(Role::User.carded() && Role::Tool.carded());
    assert!(!Role::Agent.carded() && !Role::Thought.carded());
    assert_eq!(Role::User.card_percent(), 10);
    assert_eq!(Role::Tool.card_percent(), 6);
    assert_eq!(Role::Agent.card_percent(), 0);
    assert_eq!(Role::Thought.text_color(c), (1, 2, 3, 150));
    assert_eq!(Role::Tool.text_color(c), (1, 2, 3, 205));
    assert_eq!(Role::User.text_color(c), c);
    assert_eq!(Role::from_tag('z'), Role::Agent);
}
