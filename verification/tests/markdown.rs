use pulldown_cmark::{Event, Parser, TagEnd};
use unterm::markdown::{blocks_from_events, parse, white_space, Block, MdEvent, MdTag, Span};

fn show(blocks: &[Block]) -> Vec<String> {
    blocks
        .iter()
        .map(|b| match b {
            Block::Paragraph(s) => format!("p {}", show_spans(s)),
            Block::Heading { level, spans } => format!("h{} {}", level, show_spans(spans)),
            Block::Code { text, lang, diff } => format!("code {:?} {:?} {}", text, lang, diff),
            Block::ListItem { depth, marker, spans } => {
                format!("li{} {} {}", depth, marker, show_spans(spans))
            }
            Block::Quote(s) => format!("q {}", show_spans(s)),
            Block::Rule => "rule".to_string(),
        })
        .collect()
}

fn show_spans(spans: &[Span]) -> String {
    let parts: Vec<String> = spans
        .iter()
        .map(|s| {
            let mut style = String::new();
            for (on, c) in [(s.bold, 'b'), (s.italic, 'i'), (s.code, 'c'), (s.link, 'l')] {
                if on {
                    style.push(c);
                }
            }
            format!("[{}{}{}]", style, if style.is_empty() { "" } else { ":" }, s.text)
        })
        .collect();
    parts.join("")
}

#[test]
fn inline_styles_nest() {
    let md = "plain **bold _both_** _it_ `code` [link](u)";
    assert_eq!(
        show(&parse(md)),
        vec!["p [plain ][b:bold ][bi:both][ ][i:it][ ][c:code][ ][l:link]"]
    );
}

#[test]
fn headings_and_rules() {
    assert_eq!(
        show(&parse("# One\n\n### Three *x*\n\n---\n\ntext")),
        vec!["h1 [One]", "h3 [Three ][i:x]", "rule", "p [text]"]
    );
}

#[test]
fn code_blocks_know_their_language() {
    assert_eq!(
        show(&parse("```Rust ignore\nfn a() {}\n\n```\n")),
        vec!["code \"fn a() {}\" Some(\"rust\") false"]
    );
    assert_eq!(
        show(&parse("```DIFF\n-a\n+b\n```\n")),
        vec!["code \"-a\\n+b\" Some(\"diff\") true"]
    );
    assert_eq!(show(&parse("```\nx\n```\n")), vec!["code \"x\" None false"]);
    assert_eq!(show(&parse("    indented\n")), vec!["code \"indented\" None false"]);
    assert_eq!(
        show(&parse("```\u{c9}TA\nx\n```\n")),
        vec!["code \"x\" Some(\"\u{e9}ta\") false"]
    );
}

#[test]
fn lists_are_numbered() {
    assert_eq!(
        show(&parse("3. a\n4. b\n\n- x\n- y\n")),
        vec!["li1 3. [a]", "li1 4. [b]", "li1 \u{2022} [x]", "li1 \u{2022} [y]"]
    );
    assert_eq!(
        show(&parse("1. a\n2. b\n   - c\n3. d\n")),
        vec!["li1 1. [a]", "li2 \u{2022} [c]", "li1  ", "li1 3. [d]"]
    );
}

#[test]
fn quotes_and_breaks() {
    assert_eq!(show(&parse("> a\n> b\n")), vec!["q [a][ ][b]"]);
    assert_eq!(show(&parse("a  \nb\nc\n")), vec!["p [a][\n][b][ ][c]"]);
    assert!(parse("").is_empty());
}

#[test]
fn events_that_do_not_pair_up_are_survived() {
    let events = vec![
        MdEvent::Close(MdTag::Bold),
        MdEvent::Close(MdTag::ListBox),
        MdEvent::Close(MdTag::Quotation),
        MdEvent::Close(MdTag::Title(4)),
        MdEvent::Close(MdTag::ListEntry),
        MdEvent::Words(String::new()),
        MdEvent::Verbatim("v".to_string()),
        MdEvent::Close(MdTag::Para),
    ];
    assert_eq!(
        show(&blocks_from_events(&events)),
        vec!["q ", "h1 ", "li1  ", "p [c:v]"]
    );
}

#[test]
fn text_in_code_goes_to_the_code() {
    let events = vec![
        MdEvent::OpenFence("diff".to_string()),
        MdEvent::Words("a".to_string()),
        MdEvent::SoftLine,
        MdEvent::Verbatim("dropped".to_string()),
        MdEvent::Words("b".to_string()),
        MdEvent::HardLine,
        MdEvent::Close(MdTag::CodeBox),
        MdEvent::Open(MdTag::CodeBox),
        MdEvent::Close(MdTag::CodeBox),
        MdEvent::Ruler,
        MdEvent::Skipped,
    ];
    assert_eq!(
        show(&blocks_from_events(&events)),
        vec!["code \"a\\nb\" Some(\"diff\") true", "code \"\" None false", "rule"]
    );
}

#[test]
fn list_numbers_and_depths_reach_their_limits() {
    let mut events = vec![MdEvent::OpenList(Some(u64::MAX))];
    for _ in 0..2 {
        events.push(MdEvent::Open(MdTag::ListEntry));
        events.push(MdEvent::Close(MdTag::ListEntry));
    }
    assert_eq!(
        show(&blocks_from_events(&events)),
        vec!["li1 18446744073709551615. ", "li1 18446744073709551616. "]
    );
    let mut deep: Vec<MdEvent> = (0..257).map(|_| MdEvent::OpenList(None)).collect();
    deep.push(MdEvent::Close(MdTag::ListEntry));
    assert_eq!(show(&blocks_from_events(&deep)), vec!["li1  "]);
}

#[test]
fn white_space_is_that_of_unicode() {
    for n in 0..=0x10ffffu32 {
        if let Some(c) = char::from_u32(n) {
            assert_eq!(white_space(c), c.is_whitespace(), "{n:x}");
        }
    }
}

#[test]
fn spans_clone_and_default() {
    let s = Span { text: "x".to_string(), bold: true, italic: false, code: true, link: false };
    assert_eq!(show_spans(&[s.clone()]), "[bc:x]");
    assert_eq!(show_spans(&[Span::default()]), "[]");
}

#[test]
fn styles_do_not_leak_out() {
    assert_eq!(
        show(&parse("**a** b\n\n> *q*\n\nc")),
        vec!["p [b:a][ b]", "q [i:q]", "p [c]"]
    );
}

/// Checks that starts and ends pair up, that a code block holds only text, and that code
/// blocks are flagged as a diff exactly when their language is `diff`.
fn check_document(md: &str) {
    let mut open: Vec<TagEnd> = Vec::new();
    for event in Parser::new(md) {
        let in_code = open.last() == Some(&TagEnd::CodeBlock);
        match event {
            Event::Start(tag) => {
                assert!(!in_code, "{md:?}");
                open.push(tag.to_end());
            }
            Event::End(tag) => assert_eq!(open.pop(), Some(tag), "{md:?}"),
            Event::Text(_) => {}
            _ => assert!(!in_code, "{md:?}"),
        }
    }
    assert!(open.is_empty(), "{md:?}");
    for block in parse(md) {
        if let Block::Code { lang, diff, .. } = block {
            assert_eq!(diff, lang.as_deref() == Some("diff"), "{md:?}");
        }
    }
}

#[test]
fn elements_pair_up_in_short_documents() {
    let chars = ['-', ' ', '\\', '\n', '`', '>', '*', '[', ']', ':', '1', '.', 'a', '<', '\t', '#'];
    for n in 0..=4u32 {
        for code in 0..chars.len().pow(n) {
            let mut c = code;
            let mut md = String::new();
            for _ in 0..n {
                md.push(chars[c % chars.len()]);
                c /= chars.len();
            }
            check_document(&md);
        }
    }
}

fn check_long_documents(mut seed: u64, rounds: usize) {
    let parts = [
        "- ", "* ", "1. ", "> ", "    ", "\t", "\n", "\n\n", "\r\n", "```", "```diff\n", "~~~ Diff x\n", "a", " b",
        "\\", "[a]", "[a]: b", "(c)", "![", "]", "<d>", "<e", "-->", "<!--", "**", "_", "`", "``", "# ", "===", "---",
        "&amp;", "|", "~", "\u{b}", "\u{c}", "\u{e9}", "\u{0}", "  ", "\r", "<http://x>", "\"", "'", "^", "$",
    ];
    let mut next = |n: usize| {
        seed = seed.wrapping_mul(6364136223846793005).wrapping_add(1442695040888963407);
        (seed >> 33) as usize % n
    };
    for _ in 0..rounds {
        let mut md = String::new();
        for _ in 0..next(24) {
            md.push_str(parts[next(parts.len())]);
        }
        check_document(&md);
    }
}

#[test]
fn elements_pair_up_in_longer_documents() {
    check_long_documents(11, 20_000);
}
