//! Keys, and the bytes that a terminal program expects for them.

use vstd::prelude::*;
use vstd::utf8::*;

use crate::text::bytes_of;

verus! {

/// A key.
#[derive(Debug, Clone, Copy, PartialEq, Eq, Structural)]
pub enum Key {
    Char(char),
    Enter,
    Backspace,
    Tab,
    Esc,
    Left,
    Right,
    Up,
    Down,
    Home,
    End,
    PageUp,
    PageDown,
    Delete,
    Insert,
    /// A key that means nothing here.
    Other,
}

/// The number of a letter of the alphabet, from 1 on.
pub open spec fn letter(c: char) -> Option<u8> {
    if 'a' <= c <= 'z' {
        Some((c as int - 'a' as int + 1) as u8)
    } else if 'A' <= c <= 'Z' {
        Some((c as int - 'A' as int + 1) as u8)
    } else {
        None
    }
}

/// A control sequence.
pub open spec fn control(rest: Seq<u8>) -> Seq<u8> {
    seq![0x1bu8, 0x5bu8] + rest
}

/// The bytes that a key sends. A letter with Control sends its number in the alphabet.
pub open spec fn key_bytes(code: Key, ctrl: bool) -> Option<Seq<u8>> {
    match code {
        Key::Char(c) => Some(
            if ctrl && letter(c) is Some {
                seq![letter(c)->0]
            } else {
                encode_utf8(seq![c])
            },
        ),
        Key::Enter => Some(seq![0x0du8]),
        Key::Backspace => Some(seq![0x7fu8]),
        Key::Tab => Some(seq![0x09u8]),
        Key::Esc => Some(seq![0x1bu8]),
        Key::Left => Some(control(seq![0x44u8])),
        Key::Right => Some(control(seq![0x43u8])),
        Key::Up => Some(control(seq![0x41u8])),
        Key::Down => Some(control(seq![0x42u8])),
        Key::Home => Some(control(seq![0x48u8])),
        Key::End => Some(control(seq![0x46u8])),
        Key::PageUp => Some(control(seq![0x35u8, 0x7eu8])),
        Key::PageDown => Some(control(seq![0x36u8, 0x7eu8])),
        Key::Delete => Some(control(seq![0x33u8, 0x7eu8])),
        Key::Insert => Some(control(seq![0x32u8, 0x7eu8])),
        Key::Other => None,
    }
}

fn one(b: u8) -> (r: Vec<u8>)
    ensures
        r@ == seq![b],
{
    let mut v: Vec<u8> = Vec::new();
    v.push(b);
    assert(v@ =~= seq![b]);
    v
}

fn csi(b: u8) -> (r: Vec<u8>)
    ensures
        r@ == control(seq![b]),
{
    let mut v = one(0x1b);
    v.push(0x5b);
    v.push(b);
    assert(v@ =~= control(seq![b]));
    v
}

fn csi_tilde(b: u8) -> (r: Vec<u8>)
    ensures
        r@ == control(seq![b, 0x7eu8]),
{
    let mut v = csi(b);
    v.push(0x7e);
    assert(v@ =~= control(seq![b, 0x7eu8]));
    v
}

fn char_bytes(c: char, ctrl: bool) -> (r: Vec<u8>)
    ensures
        Some(r@) == key_bytes(Key::Char(c), ctrl),
{
    if ctrl && 'a' <= c && c <= 'z' {
        one(c as u8 - 96)
    } else if ctrl && 'A' <= c && c <= 'Z' {
        one(c as u8 - 64)
    } else {
        let mut s = String::new();
        s.push(c);
        assert(s@ =~= seq![c]);
        bytes_of(s.as_str())
    }
}

/// Encodes a keypress into the bytes that a terminal program expects on its stdin.
pub fn encode_key(code: Key, ctrl: bool) -> (r: Option<Vec<u8>>)
    ensures
        match r {
            Some(b) => key_bytes(code, ctrl) == Some(b@),
            None => key_bytes(code, ctrl) is None,
        },
{
    let bytes = match code {
        Key::Char(c) => char_bytes(c, ctrl),
        Key::Enter => one(0x0d),
        Key::Backspace => one(0x7f),
        Key::Tab => one(0x09),
        Key::Esc => one(0x1b),
        Key::Left => csi(0x44),
        Key::Right => csi(0x43),
        Key::Up => csi(0x41),
        Key::Down => csi(0x42),
        Key::Home => csi(0x48),
        Key::End => csi(0x46),
        Key::PageUp => csi_tilde(0x35),
        Key::PageDown => csi_tilde(0x36),
        Key::Delete => csi_tilde(0x33),
        Key::Insert => csi_tilde(0x32),
        Key::Other => {
            return None;
        },
    };
    Some(bytes)
}

} // verus!
