//! Host key events as the byte sequences that a PTY expects.
//!
//! The host reports a named key plus modifier flags; printable typing goes through as
//! text instead. Arrow keys, Home and End honor DECCKM (application cursor keys), so
//! full-screen programs get the sequences that they asked for.

use vstd::prelude::*;
use vstd::utf8::encode_utf8;

use crate::text::{chars_of, same_text};

verus! {

/// Escape, which starts a control sequence and stands for Alt.
pub const ESC: u8 = 0x1b;

/// The modifier parameter of a control sequence: 1 plus 1 for Shift, 2 for Alt and 4 for
/// Ctrl.
pub open spec fn modifier_number(ctrl: bool, alt: bool, shift: bool) -> int {
    1 + (if shift {
        1int
    } else {
        0
    }) + (if alt {
        2int
    } else {
        0
    }) + (if ctrl {
        4int
    } else {
        0
    })
}

/// The decimal digits of a number below 100.
pub open spec fn digits(n: int) -> Seq<u8> {
    if n < 10 {
        seq![(48 + n) as u8]
    } else {
        seq![(48 + n / 10) as u8, (48 + n % 10) as u8]
    }
}

/// The final byte of the control sequence of an arrow key, Home or End.
pub open spec fn cursor_final(name: Seq<char>) -> Option<u8> {
    if name == "Up"@ {
        Some('A' as u8)
    } else if name == "Down"@ {
        Some('B' as u8)
    } else if name == "Right"@ {
        Some('C' as u8)
    } else if name == "Left"@ {
        Some('D' as u8)
    } else if name == "Home"@ {
        Some('H' as u8)
    } else if name == "End"@ {
        Some('F' as u8)
    } else {
        None
    }
}

/// The number of a key whose control sequence ends in a tilde.
pub open spec fn tilde_number(name: Seq<char>) -> Option<u8> {
    if name == "Insert"@ {
        Some(2)
    } else if name == "Delete"@ {
        Some(3)
    } else if name == "PageUp"@ {
        Some(5)
    } else if name == "PageDown"@ {
        Some(6)
    } else if name == "F5"@ {
        Some(15)
    } else if name == "F6"@ {
        Some(17)
    } else if name == "F7"@ {
        Some(18)
    } else if name == "F8"@ {
        Some(19)
    } else if name == "F9"@ {
        Some(20)
    } else if name == "F10"@ {
        Some(21)
    } else if name == "F11"@ {
        Some(23)
    } else if name == "F12"@ {
        Some(24)
    } else {
        None
    }
}

/// The final byte of the SS3 sequence of F1 to F4.
pub open spec fn function_final(name: Seq<char>) -> Option<u8> {
    if name == "F1"@ {
        Some('P' as u8)
    } else if name == "F2"@ {
        Some('Q' as u8)
    } else if name == "F3"@ {
        Some('R' as u8)
    } else if name == "F4"@ {
        Some('S' as u8)
    } else {
        None
    }
}

/// Whether `name` is one of the names for Enter.
pub open spec fn is_enter(name: Seq<char>) -> bool {
    name == "Enter"@ || name == "Return"@ || name == "KpEnter"@
}

/// An arrow key, Home or End: `CSI 1 ; modifier final` with modifiers, else `SS3 final` in
/// application cursor mode, else `CSI final`.
pub open spec fn cursor_sequence(last: u8, modifier: int, app_cursor: bool) -> Seq<u8> {
    if modifier != 1 {
        seq![ESC, '[' as u8, '1' as u8, ';' as u8] + digits(modifier) + seq![last]
    } else if app_cursor {
        seq![ESC, 'O' as u8, last]
    } else {
        seq![ESC, '[' as u8, last]
    }
}

/// A tilde key: `CSI number ; modifier ~` with modifiers, else `CSI number ~`.
pub open spec fn tilde_sequence(number: int, modifier: int) -> Seq<u8> {
    if modifier != 1 {
        seq![ESC, '[' as u8] + digits(number) + seq![';' as u8] + digits(modifier) + seq!['~' as u8]
    } else {
        seq![ESC, '[' as u8] + digits(number) + seq!['~' as u8]
    }
}

/// The control byte of a character: `@`, the letters and `[ \ ] ^ _` are 0 to 31, space
/// is 0, `/` is 31 and `?` is DEL.
pub open spec fn control_byte(c: char) -> Option<u8> {
    if 'a' <= c <= 'z' {
        Some((c as int - 96) as u8)
    } else if '@' <= c <= '_' {
        Some((c as int - 64) as u8)
    } else if c == ' ' {
        Some(0x00)
    } else if c == '?' {
        Some(0x7f)
    } else if c == '/' {
        Some(0x1f)
    } else {
        None
    }
}

/// A character with Ctrl or Alt.
pub open spec fn char_bytes(c: char, ctrl: bool, alt: bool) -> Option<Seq<u8>> {
    let prefix = if alt {
        seq![ESC]
    } else {
        seq![]
    };
    if ctrl {
        match control_byte(c) {
            Some(b) => Some(prefix.push(b)),
            None => None,
        }
    } else if alt {
        Some(prefix + encode_utf8(seq![c]))
    } else {
        None
    }
}

/// The bytes for a key with its modifiers, if it is handled.
pub open spec fn key_bytes(
    name: Seq<char>,
    ctrl: bool,
    alt: bool,
    shift: bool,
    app_cursor: bool,
) -> Option<Seq<u8>> {
    let modifier = modifier_number(ctrl, alt, shift);
    if is_enter(name) {
        Some(
            if alt {
                seq![ESC, '\r' as u8]
            } else {
                seq!['\r' as u8]
            },
        )
    } else if name == "Backspace"@ {
        Some(
            seq![
                if ctrl {
                    0x08u8
                } else {
                    0x7f
                },
            ],
        )
    } else if name == "Tab"@ {
        Some(
            if shift {
                seq![ESC, '[' as u8, 'Z' as u8]
            } else {
                seq!['\t' as u8]
            },
        )
    } else if name == "Escape"@ {
        Some(seq![ESC])
    } else if cursor_final(name) is Some {
        Some(cursor_sequence(cursor_final(name)->0, modifier, app_cursor))
    } else if tilde_number(name) is Some {
        Some(tilde_sequence(tilde_number(name)->0 as int, modifier))
    } else if function_final(name) is Some {
        Some(seq![ESC, 'O' as u8, function_final(name)->0])
    } else if name.len() == 1 {
        char_bytes(name[0], ctrl, alt)
    } else {
        None
    }
}

fn cursor_key(name: &str) -> (r: Option<u8>)
    ensures
        r == cursor_final(name@),
{
    if same_text(name, "Up") {
        Some('A' as u8)
    } else if same_text(name, "Down") {
        Some('B' as u8)
    } else if same_text(name, "Right") {
        Some('C' as u8)
    } else if same_text(name, "Left") {
        Some('D' as u8)
    } else if same_text(name, "Home") {
        Some('H' as u8)
    } else if same_text(name, "End") {
        Some('F' as u8)
    } else {
        None
    }
}

fn tilde_key(name: &str) -> (r: Option<u8>)
    ensures
        r == tilde_number(name@),
        r is Some ==> r->0 < 100,
{
    if same_text(name, "Insert") {
        Some(2)
    } else if same_text(name, "Delete") {
        Some(3)
    } else if same_text(name, "PageUp") {
        Some(5)
    } else if same_text(name, "PageDown") {
        Some(6)
    } else if same_text(name, "F5") {
        Some(15)
    } else if same_text(name, "F6") {
        Some(17)
    } else if same_text(name, "F7") {
        Some(18)
    } else if same_text(name, "F8") {
        Some(19)
    } else if same_text(name, "F9") {
        Some(20)
    } else if same_text(name, "F10") {
        Some(21)
    } else if same_text(name, "F11") {
        Some(23)
    } else if same_text(name, "F12") {
        Some(24)
    } else {
        None
    }
}

fn function_key(name: &str) -> (r: Option<u8>)
    ensures
        r == function_final(name@),
{
    if same_text(name, "F1") {
        Some('P' as u8)
    } else if same_text(name, "F2") {
        Some('Q' as u8)
    } else if same_text(name, "F3") {
        Some('R' as u8)
    } else if same_text(name, "F4") {
        Some('S' as u8)
    } else {
        None
    }
}

fn push_digits(out: &mut Vec<u8>, n: u8)
    requires
        n < 100,
    ensures
        final(out)@ == old(out)@ + digits(n as int),
{
    if n >= 10 {
        out.push(48 + n / 10);
        out.push(48 + n % 10);
    } else {
        out.push(48 + n);
    }
    assert(out@ == old(out)@ + digits(n as int));
}

fn cursor(last: u8, modifier: u8, app_cursor: bool) -> (r: Vec<u8>)
    requires
        modifier < 100,
    ensures
        r@ == cursor_sequence(last, modifier as int, app_cursor),
{
    if modifier != 1 {
        let mut out: Vec<u8> = vec![ESC, '[' as u8, '1' as u8, ';' as u8];
        push_digits(&mut out, modifier);
        out.push(last);
        assert(out@ == cursor_sequence(last, modifier as int, app_cursor));
        out
    } else if app_cursor {
        vec![ESC, 'O' as u8, last]
    } else {
        vec![ESC, '[' as u8, last]
    }
}

fn tilde(number: u8, modifier: u8) -> (r: Vec<u8>)
    requires
        number < 100,
        modifier < 100,
    ensures
        r@ == tilde_sequence(number as int, modifier as int),
{
    let mut out: Vec<u8> = vec![ESC, '[' as u8];
    push_digits(&mut out, number);
    if modifier != 1 {
        out.push(';' as u8);
        push_digits(&mut out, modifier);
    }
    out.push('~' as u8);
    assert(out@ == tilde_sequence(number as int, modifier as int));
    out
}

/// Encode `name` and the modifiers into PTY bytes, or `None` if the key is not handled.
pub fn encode(name: &str, ctrl: bool, alt: bool, shift: bool, app_cursor: bool) -> (r: Option<
    Vec<u8>,
>)
    ensures
        match r {
            Some(bytes) => key_bytes(name@, ctrl, alt, shift, app_cursor) == Some(bytes@),
            None => key_bytes(name@, ctrl, alt, shift, app_cursor) is None,
        },
{
    let modifier: u8 = 1 + (if shift {
        1
    } else {
        0
    }) + (if alt {
        2
    } else {
        0
    }) + (if ctrl {
        4
    } else {
        0
    });
    if same_text(name, "Enter") || same_text(name, "Return") || same_text(name, "KpEnter") {
        if alt {
            Some(vec![ESC, '\r' as u8])
        } else {
            Some(vec!['\r' as u8])
        }
    } else if same_text(name, "Backspace") {
        if ctrl {
            Some(vec![0x08])
        } else {
            Some(vec![0x7f])
        }
    } else if same_text(name, "Tab") {
        if shift {
            Some(vec![ESC, '[' as u8, 'Z' as u8])
        } else {
            Some(vec!['\t' as u8])
        }
    } else if same_text(name, "Escape") {
        Some(vec![ESC])
    } else if let Some(last) = cursor_key(name) {
        Some(cursor(last, modifier, app_cursor))
    } else if let Some(number) = tilde_key(name) {
        Some(tilde(number, modifier))
    } else if let Some(last) = function_key(name) {
        Some(vec![ESC, 'O' as u8, last])
    } else {
        // A single character carrying Ctrl or Alt (such as Ctrl-C or Alt-b).
        let chars = chars_of(name);
        if chars.len() == 1 {
            encode_char(chars[0], ctrl, alt)
        } else {
            None
        }
    }
}

/// Encode a single character with Ctrl or Alt applied (a plain character is text).
pub fn encode_char(c: char, ctrl: bool, alt: bool) -> (r: Option<Vec<u8>>)
    ensures
        match r {
            Some(bytes) => char_bytes(c, ctrl, alt) == Some(bytes@),
            None => char_bytes(c, ctrl, alt) is None,
        },
{
    if !ctrl && !alt {
        return None;
    }
    let mut out: Vec<u8> = Vec::new();
    if alt {
        out.push(ESC);
    }
    if ctrl {
        let u: u32 = c as u32;
        let b: u8 = if 'a' <= c && c <= 'z' {
            (u - 96) as u8
        } else if '@' <= c && c <= '_' {
            (u - 64) as u8
        } else if c == ' ' {
            0x00
        } else if c == '?' {
            0x7f
        } else if c == '/' {
            0x1f
        } else {
            return None;
        };
        out.push(b);
    } else {
        let mut text = String::new();
        text.push(c);
        let mut bytes = text.as_str().as_bytes_vec();
        out.append(&mut bytes);
    }
    Some(out)
}

/// A handled key always sends something.
pub proof fn law_keys_send_bytes(
    name: Seq<char>,
    ctrl: bool,
    alt: bool,
    shift: bool,
    app_cursor: bool,
)
    ensures
        key_bytes(name, ctrl, alt, shift, app_cursor) is Some ==> key_bytes(
            name,
            ctrl,
            alt,
            shift,
            app_cursor,
        )->0.len() > 0,
{
}

/// Application cursor mode matters only for arrow keys, Home and End, and only without
/// modifiers.
pub proof fn law_app_cursor_is_for_plain_cursor_keys(
    name: Seq<char>,
    ctrl: bool,
    alt: bool,
    shift: bool,
)
    requires
        cursor_final(name) is None || ctrl || alt || shift,
    ensures
        key_bytes(name, ctrl, alt, shift, true) == key_bytes(name, ctrl, alt, shift, false),
{
}

/// A plain printable character is not a key event: it goes through as text.
pub proof fn law_plain_characters_are_text(c: char, shift: bool, app_cursor: bool)
    ensures
        key_bytes(seq![c], false, false, shift, app_cursor) is None,
{
    lemma_names_are_longer(seq![c]);
}

/// A single character is not the name of a key.
proof fn lemma_names_are_longer(name: Seq<char>)
    requires
        name.len() == 1,
    ensures
        !is_enter(name),
        name != "Backspace"@,
        name != "Tab"@,
        name != "Escape"@,
        cursor_final(name) is None,
        tilde_number(name) is None,
        function_final(name) is None,
{
    reveal_strlit("Enter");
    reveal_strlit("Return");
    reveal_strlit("KpEnter");
    reveal_strlit("Backspace");
    reveal_strlit("Tab");
    reveal_strlit("Escape");
    reveal_strlit("Up");
    reveal_strlit("Down");
    reveal_strlit("Right");
    reveal_strlit("Left");
    reveal_strlit("Home");
    reveal_strlit("End");
    reveal_strlit("Insert");
    reveal_strlit("Delete");
    reveal_strlit("PageUp");
    reveal_strlit("PageDown");
    reveal_strlit("F1");
    reveal_strlit("F2");
    reveal_strlit("F3");
    reveal_strlit("F4");
    reveal_strlit("F5");
    reveal_strlit("F6");
    reveal_strlit("F7");
    reveal_strlit("F8");
    reveal_strlit("F9");
    reveal_strlit("F10");
    reveal_strlit("F11");
    reveal_strlit("F12");
}

/// Any single character is encoded as such.
pub proof fn law_characters_are_not_names(
    c: char,
    ctrl: bool,
    alt: bool,
    shift: bool,
    app_cursor: bool,
)
    ensures
        key_bytes(seq![c], ctrl, alt, shift, app_cursor) == char_bytes(c, ctrl, alt),
{
    lemma_names_are_longer(seq![c]);
}

/// Ctrl does not tell upper case from lower case.
pub proof fn law_ctrl_ignores_case(lower: char, upper: char, alt: bool)
    requires
        'a' <= lower <= 'z',
        upper as int == lower as int - 32,
    ensures
        char_bytes(lower, true, alt) == char_bytes(upper, true, alt),
{
}

/// Ctrl gives a control byte: below space, or DEL.
pub proof fn law_ctrl_gives_control_bytes(c: char)
    ensures
        control_byte(c) is Some ==> control_byte(c)->0 < 0x20 || control_byte(c)->0 == 0x7f,
{
}

/// Alt puts an escape before what the character sends without it.
pub proof fn law_alt_prefixes_escape(c: char)
    ensures
        char_bytes(c, false, true) == Some(seq![ESC] + encode_utf8(seq![c])),
        char_bytes(c, true, true) is Some <==> char_bytes(c, true, false) is Some,
        char_bytes(c, true, true) is Some ==> char_bytes(c, true, true)->0 == seq![ESC] + char_bytes(
            c,
            true,
            false,
        )->0,
{
}

/// The modifier parameter tells all combinations of modifiers apart, and is 1 only for
/// none.
pub proof fn law_modifiers_are_distinct(a: (bool, bool, bool), b: (bool, bool, bool))
    ensures
        modifier_number(a.0, a.1, a.2) == modifier_number(b.0, b.1, b.2) ==> a == b,
        1 <= modifier_number(a.0, a.1, a.2) <= 8,
        modifier_number(a.0, a.1, a.2) == 1 <==> a == (false, false, false),
{
}

/// Ctrl keeps the low five bits of a letter or of `@ [ \ ] ^ _`, so that the letters are 1 to
/// 26 in alphabetical order, in either case. Space, `/` and `?` send NUL, 31 and DEL; no
/// other character can be sent with Ctrl.
pub proof fn law_ctrl_keeps_low_bits(c: char)
    ensures
        0x40 <= c as u32 <= 0x5f || 0x61 <= c as u32 <= 0x7a ==> char_bytes(c, true, false) == Some(
            seq![(c as u8) & 0x1f],
        ),
        c == ' ' ==> char_bytes(c, true, false) == Some(seq![0u8]),
        c == '/' ==> char_bytes(c, true, false) == Some(seq![31u8]),
        c == '?' ==> char_bytes(c, true, false) == Some(seq![127u8]),
        char_bytes(c, true, false) is Some ==> 0x40 <= c as u32 <= 0x5f || 0x61 <= c as u32
            <= 0x7a || c == ' ' || c == '/' || c == '?',
{
    let u = c as u8;
    if 0x40 <= c as u32 <= 0x5f {
        assert(u == c as u32);
        assert(0x40 <= u <= 0x5f ==> u & 0x1f == u - 0x40) by (bit_vector);
        assert(Seq::<u8>::empty().push(u & 0x1f) == seq![u & 0x1f]);
    }
    if 0x61 <= c as u32 <= 0x7a {
        assert(u == c as u32);
        assert(0x61 <= u <= 0x7a ==> u & 0x1f == u - 0x60) by (bit_vector);
        assert(Seq::<u8>::empty().push(u & 0x1f) == seq![u & 0x1f]);
    }
    assert(Seq::<u8>::empty().push(0u8) == seq![0u8]);
    assert(Seq::<u8>::empty().push(31u8) == seq![31u8]);
    assert(Seq::<u8>::empty().push(127u8) == seq![127u8]);
}

/// With Ctrl, letters later in the alphabet send higher bytes, from 1 to 26.
pub proof fn law_ctrl_letters_are_in_order(a: char, b: char)
    requires
        'a' <= a < b <= 'z',
    ensures
        char_bytes(a, true, false) is Some,
        char_bytes(b, true, false) is Some,
        char_bytes(a, true, false)->0.len() == 1,
        char_bytes(b, true, false)->0.len() == 1,
        1 <= char_bytes(a, true, false)->0[0] < char_bytes(b, true, false)->0[0] <= 26,
        char_bytes(b, true, false)->0[0] - char_bytes(a, true, false)->0[0] == b as int - a as int,
{
}

/// Without Ctrl, a character with Alt sends an escape and its UTF-8; without either it sends
/// nothing.
pub proof fn law_alt_sends_utf8(c: char)
    ensures
        char_bytes(c, false, true) == Some(seq![0x1bu8] + encode_utf8(seq![c])),
        char_bytes(c, false, false) is None,
        char_bytes(c, true, false) is Some ==> char_bytes(c, true, true) == Some(
            seq![0x1bu8] + char_bytes(c, true, false)->0,
        ),
        char_bytes(c, true, false) is None ==> char_bytes(c, true, true) is None,
{
    if char_bytes(c, true, false) is Some {
        let b = char_bytes(c, true, false)->0[0];
        assert(seq![0x1bu8] + char_bytes(c, true, false)->0 == seq![0x1bu8].push(b));
    }
}

/// The first two letters of the key names, and what tells the longer ones apart.
proof fn lemma_name_letters()
    ensures
        "Enter"@.len() == 5 && "Enter"@[0] == 'E',
        "Return"@.len() == 6 && "Return"@[0] == 'R',
        "KpEnter"@.len() == 7,
        "Backspace"@.len() == 9,
        "Tab"@.len() == 3 && "Tab"@[0] == 'T',
        "Escape"@.len() == 6 && "Escape"@[0] == 'E',
        "Up"@.len() == 2 && "Up"@[0] == 'U',
        "Down"@.len() == 4 && "Down"@[0] == 'D',
        "Right"@.len() == 5 && "Right"@[0] == 'R',
        "Left"@.len() == 4 && "Left"@[0] == 'L',
        "Home"@.len() == 4 && "Home"@[0] == 'H',
        "End"@.len() == 3 && "End"@[0] == 'E',
        "Insert"@.len() == 6 && "Insert"@[0] == 'I',
        "Delete"@.len() == 6 && "Delete"@[0] == 'D',
        "PageUp"@.len() == 6 && "PageUp"@[0] == 'P',
        "PageDown"@.len() == 8,
        "F1"@.len() == 2 && "F1"@[0] == 'F' && "F1"@[1] == '1',
        "F2"@.len() == 2 && "F2"@[0] == 'F' && "F2"@[1] == '2',
        "F3"@.len() == 2 && "F3"@[0] == 'F' && "F3"@[1] == '3',
        "F4"@.len() == 2 && "F4"@[0] == 'F' && "F4"@[1] == '4',
        "F5"@.len() == 2 && "F5"@[0] == 'F' && "F5"@[1] == '5',
        "F6"@.len() == 2 && "F6"@[0] == 'F' && "F6"@[1] == '6',
        "F7"@.len() == 2 && "F7"@[0] == 'F' && "F7"@[1] == '7',
        "F8"@.len() == 2 && "F8"@[0] == 'F' && "F8"@[1] == '8',
        "F9"@.len() == 2 && "F9"@[0] == 'F' && "F9"@[1] == '9',
        "F10"@.len() == 3 && "F10"@[0] == 'F' && "F10"@[2] == '0',
        "F11"@.len() == 3 && "F11"@[0] == 'F' && "F11"@[2] == '1',
        "F12"@.len() == 3 && "F12"@[0] == 'F' && "F12"@[2] == '2',
{
    reveal_strlit("Enter");
    reveal_strlit("Return");
    reveal_strlit("KpEnter");
    reveal_strlit("Backspace");
    reveal_strlit("Tab");
    reveal_strlit("Escape");
    reveal_strlit("Up");
    reveal_strlit("Down");
    reveal_strlit("Right");
    reveal_strlit("Left");
    reveal_strlit("Home");
    reveal_strlit("End");
    reveal_strlit("Insert");
    reveal_strlit("Delete");
    reveal_strlit("PageUp");
    reveal_strlit("PageDown");
    reveal_strlit("F1");
    reveal_strlit("F2");
    reveal_strlit("F3");
    reveal_strlit("F4");
    reveal_strlit("F5");
    reveal_strlit("F6");
    reveal_strlit("F7");
    reveal_strlit("F8");
    reveal_strlit("F9");
    reveal_strlit("F10");
    reveal_strlit("F11");
    reveal_strlit("F12");
}

/// The digit of the modifier parameter, in ASCII: 1, and 1, 2 and 4 more for Shift, Alt and
/// Ctrl.
pub open spec fn modifier_digit(ctrl: bool, alt: bool, shift: bool) -> u8 {
    match (ctrl, alt, shift) {
        (false, false, false) => 0x31,
        (false, false, true) => 0x32,
        (false, true, false) => 0x33,
        (false, true, true) => 0x34,
        (true, false, false) => 0x35,
        (true, false, true) => 0x36,
        (true, true, false) => 0x37,
        (true, true, true) => 0x38,
    }
}

/// An arrow key, Home or End sends its letter after `ESC [`, or after `ESC O` when the
/// program asked for that, and after `ESC [ 1 ;` and the modifiers where there are any.
pub proof fn law_cursor_keys_send_their_letter(
    name: Seq<char>,
    letter: char,
    ctrl: bool,
    alt: bool,
    shift: bool,
    app_cursor: bool,
)
    requires
        ({
            ||| name == "Up"@ && letter == 'A'
            ||| name == "Down"@ && letter == 'B'
            ||| name == "Right"@ && letter == 'C'
            ||| name == "Left"@ && letter == 'D'
            ||| name == "Home"@ && letter == 'H'
            ||| name == "End"@ && letter == 'F'
        }),
    ensures
        !ctrl && !alt && !shift && !app_cursor ==> key_bytes(name, ctrl, alt, shift, app_cursor)
            == Some(seq![0x1bu8, 0x5b, letter as u8]),
        !ctrl && !alt && !shift && app_cursor ==> key_bytes(name, ctrl, alt, shift, app_cursor)
            == Some(seq![0x1bu8, 0x4f, letter as u8]),
        ctrl || alt || shift ==> key_bytes(name, ctrl, alt, shift, app_cursor) == Some(
            seq![
                0x1bu8,
                0x5b,
                0x31,
                0x3b,
                modifier_digit(ctrl, alt, shift),
                letter as u8,
            ],
        ),
{
    lemma_name_letters();
    if ctrl || alt || shift {
        let d = modifier_digit(ctrl, alt, shift);
        assert(digits(modifier_number(ctrl, alt, shift)) == seq![d]);
        assert(seq![ESC, '[' as u8, '1' as u8, ';' as u8] + seq![d] + seq![letter as u8]
            == seq![0x1bu8, 0x5b, 0x31, 0x3b, d, letter as u8]);
    }
}

/// Insert, Delete, the page keys and F5 to F12 send their number between `ESC [` and `~`,
/// with the modifiers behind it where there are any.
pub proof fn law_tilde_keys_send_their_number(
    name: Seq<char>,
    number: Seq<u8>,
    ctrl: bool,
    alt: bool,
    shift: bool,
    app_cursor: bool,
)
    requires
        ({
            ||| name == "Insert"@ && number == seq![0x32u8]
            ||| name == "Delete"@ && number == seq![0x33u8]
            ||| name == "PageUp"@ && number == seq![0x35u8]
            ||| name == "PageDown"@ && number == seq![0x36u8]
            ||| name == "F5"@ && number == seq![0x31u8, 0x35u8]
            ||| name == "F6"@ && number == seq![0x31u8, 0x37u8]
            ||| name == "F7"@ && number == seq![0x31u8, 0x38u8]
            ||| name == "F8"@ && number == seq![0x31u8, 0x39u8]
            ||| name == "F9"@ && number == seq![0x32u8, 0x30u8]
            ||| name == "F10"@ && number == seq![0x32u8, 0x31u8]
            ||| name == "F11"@ && number == seq![0x32u8, 0x33u8]
            ||| name == "F12"@ && number == seq![0x32u8, 0x34u8]
        }),
    ensures
        !ctrl && !alt && !shift ==> key_bytes(name, ctrl, alt, shift, app_cursor) == Some(
            seq![0x1bu8, 0x5b] + number + seq![0x7eu8],
        ),
        ctrl || alt || shift ==> key_bytes(name, ctrl, alt, shift, app_cursor) == Some(
            seq![0x1bu8, 0x5b] + number + seq![0x3bu8, modifier_digit(ctrl, alt, shift), 0x7eu8],
        ),
{
    lemma_name_letters();
    assert(tilde_number(name) is Some);
    assert(digits(tilde_number(name)->0 as int) == number);
    let d = modifier_digit(ctrl, alt, shift);
    assert(ctrl || alt || shift ==> digits(modifier_number(ctrl, alt, shift)) == seq![d]);
    assert(seq![ESC, '[' as u8] + number + seq![';' as u8] + seq![d] + seq!['~' as u8] == seq![
        0x1bu8,
        0x5b,
    ] + number + seq![0x3bu8, d, 0x7eu8]);
}

/// F1 to F4 send `ESC O` and `P` to `S`, whatever the modifiers.
pub proof fn law_first_function_keys(
    name: Seq<char>,
    letter: char,
    ctrl: bool,
    alt: bool,
    shift: bool,
    app_cursor: bool,
)
    requires
        ({
            ||| name == "F1"@ && letter == 'P'
            ||| name == "F2"@ && letter == 'Q'
            ||| name == "F3"@ && letter == 'R'
            ||| name == "F4"@ && letter == 'S'
        }),
    ensures
        key_bytes(name, ctrl, alt, shift, app_cursor) == Some(seq![0x1bu8, 0x4f, letter as u8]),
{
    lemma_name_letters();
}

/// Enter under any of its names, Backspace, Tab and Escape send their control byte. Alt puts
/// an escape before Enter, Ctrl makes Backspace a BS, and Shift makes Tab a back tab.
pub proof fn law_editing_keys(
    name: Seq<char>,
    ctrl: bool,
    alt: bool,
    shift: bool,
    app_cursor: bool,
)
    ensures
        name == "Enter"@ || name == "Return"@ || name == "KpEnter"@ ==> key_bytes(
            name,
            ctrl,
            alt,
            shift,
            app_cursor,
        ) == Some(
            if alt {
                seq![0x1bu8, 0x0d]
            } else {
                seq![0x0du8]
            },
        ),
        name == "Backspace"@ ==> key_bytes(name, ctrl, alt, shift, app_cursor) == Some(
            if ctrl {
                seq![0x08u8]
            } else {
                seq![0x7fu8]
            },
        ),
        name == "Tab"@ ==> key_bytes(name, ctrl, alt, shift, app_cursor) == Some(
            if shift {
                seq![0x1bu8, 0x5b, 0x5a]
            } else {
                seq![0x09u8]
            },
        ),
        name == "Escape"@ ==> key_bytes(name, ctrl, alt, shift, app_cursor) == Some(seq![0x1bu8]),
{
    lemma_name_letters();
}

/// What is neither a single character nor one of the named keys is not handled.
pub proof fn law_other_names_are_not_handled(
    name: Seq<char>,
    ctrl: bool,
    alt: bool,
    shift: bool,
    app_cursor: bool,
)
    requires
        name.len() != 1,
        key_bytes(name, ctrl, alt, shift, app_cursor) is Some,
    ensures
        ({
            ||| name == "Enter"@
            ||| name == "Return"@
            ||| name == "KpEnter"@
            ||| name == "Backspace"@
            ||| name == "Tab"@
            ||| name == "Escape"@
            ||| name == "Up"@
            ||| name == "Down"@
            ||| name == "Right"@
            ||| name == "Left"@
            ||| name == "Home"@
            ||| name == "End"@
            ||| name == "Insert"@
            ||| name == "Delete"@
            ||| name == "PageUp"@
            ||| name == "PageDown"@
            ||| name == "F1"@
            ||| name == "F2"@
            ||| name == "F3"@
            ||| name == "F4"@
            ||| name == "F5"@
            ||| name == "F6"@
            ||| name == "F7"@
            ||| name == "F8"@
            ||| name == "F9"@
            ||| name == "F10"@
            ||| name == "F11"@
            ||| name == "F12"@
        }),
{
}

} // verus!
