use unterm::keys::{encode, encode_char};

fn plain(name: &str) -> Option<Vec<u8>> {
    encode(name, false, false, false, false)
}

#[test]
fn editing_keys() {
    for name in ["Enter", "Return", "KpEnter"] {
        assert_eq!(plain(name).unwrap(), b"\r");
        assert_eq!(encode(name, false, true, false, false).unwrap(), b"\x1b\r");
    }
    assert_eq!(plain("Backspace").unwrap(), [0x7f]);
    assert_eq!(encode("Backspace", true, false, false, false).unwrap(), [0x08]);
    assert_eq!(plain("Tab").unwrap(), b"\t");
    assert_eq!(encode("Tab", false, false, true, false).unwrap(), b"\x1b[Z");
    assert_eq!(plain("Escape").unwrap(), [0x1b]);
}

#[test]
fn cursor_keys() {
    let keys = [("Up", 'A'), ("Down", 'B'), ("Right", 'C'), ("Left", 'D'), ("Home", 'H'), ("End", 'F')];
    for (name, last) in keys {
        assert_eq!(plain(name).unwrap(), format!("\x1b[{last}").into_bytes());
        let app = encode(name, false, false, false, true).unwrap();
        assert_eq!(app, format!("\x1bO{last}").into_bytes());
        for bits in 1..8u8 {
            let (shift, alt, ctrl) = (bits & 1 != 0, bits & 2 != 0, bits & 4 != 0);
            let want = format!("\x1b[1;{}{last}", bits + 1).into_bytes();
            assert_eq!(encode(name, ctrl, alt, shift, false).unwrap(), want);
            assert_eq!(encode(name, ctrl, alt, shift, true).unwrap(), want);
        }
    }
}

#[test]
fn tilde_and_function_keys() {
    let keys = [
        ("Insert", 2), ("Delete", 3), ("PageUp", 5), ("PageDown", 6), ("F5", 15), ("F6", 17),
        ("F7", 18), ("F8", 19), ("F9", 20), ("F10", 21), ("F11", 23), ("F12", 24),
    ];
    for (name, n) in keys {
        assert_eq!(plain(name).unwrap(), format!("\x1b[{n}~").into_bytes());
        let shifted = encode(name, false, false, true, false).unwrap();
        assert_eq!(shifted, format!("\x1b[{n};2~").into_bytes());
        let all = encode(name, true, true, true, true).unwrap();
        assert_eq!(all, format!("\x1b[{n};8~").into_bytes());
    }
    for (name, last) in [("F1", 'P'), ("F2", 'Q'), ("F3", 'R'), ("F4", 'S')] {
        assert_eq!(plain(name).unwrap(), format!("\x1bO{last}").into_bytes());
    }
}

#[test]
fn characters_with_ctrl_and_alt() {
    assert_eq!(encode("c", true, false, false, false).unwrap(), [0x03]);
    assert_eq!(encode("C", true, false, true, false).unwrap(), [0x03]);
    assert_eq!(encode("b", false, true, false, false).unwrap(), b"\x1bb");
    assert_eq!(encode("c", true, true, false, false).unwrap(), [0x1b, 0x03]);
    assert_eq!(encode("\u{e9}", false, true, false, false).unwrap(), [0x1b, 0xc3, 0xa9]);
    assert_eq!(encode_char('\u{1f600}', false, true).unwrap(), [0x1b, 0xf0, 0x9f, 0x98, 0x80]);
    for (c, b) in [('@', 0), ('[', 27), ('\\', 28), (']', 29), ('^', 30), ('_', 31), (' ', 0), ('?', 127), ('/', 31)] {
        assert_eq!(encode_char(c, true, false).unwrap(), [b]);
    }
    assert_eq!(encode_char('\u{e9}', true, false), None);
    assert_eq!(encode_char('`', true, true), None);
    assert_eq!(encode_char('1', true, false), None);
}

#[test]
fn plain_text_and_unknown_keys_are_not_encoded() {
    assert_eq!(plain("a"), None);
    assert_eq!(encode("a", false, false, true, true), None);
    assert_eq!(plain(""), None);
    assert_eq!(encode("F13", true, true, true, true), None);
    assert_eq!(encode("enter", true, false, false, false), None);
}
