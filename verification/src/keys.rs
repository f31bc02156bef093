//! Keys, as X11 and Wayland number them.

use vstd::prelude::*;
use vstd::utf8::is_scalar;

verus! {

pub const XK_ESC: u32 = 0xFF1B;

pub const XK_RET: u32 = 0xFF0D;

pub const XK_BS: u32 = 0xFF08;

pub const XK_DEL: u32 = 0xFFFF;

pub const XK_UP: u32 = 0xFF52;

pub const XK_DOWN: u32 = 0xFF54;

/// `char::from_u32`: the character with the code point `i`, where there is one.
pub assume_specification[ char::from_u32 ](i: u32) -> (r: Option<char>)
    ensures
        r == (if is_scalar(i) {
            Some(i as char)
        } else {
            None
        }),
;

/// The code point that a key stands for: that of its Latin-1 character, or the one that its last
/// three bytes give where the first is 1.
pub open spec fn code_point(ks: u32) -> Option<u32> {
    if 0x20 <= ks <= 0x7E || 0xA0 <= ks <= 0xFF {
        Some(ks)
    } else if 0x01000000 <= ks <= 0x01FFFFFF {
        Some((ks - 0x01000000) as u32)
    } else {
        None
    }
}

/// The character that a key types.
pub open spec fn typed_char(ks: u32) -> Option<char> {
    match code_point(ks) {
        Some(v) => if is_scalar(v) {
            Some(v as char)
        } else {
            None
        },
        None => None,
    }
}

/// The character that a key types.
pub fn keysym_to_char(ks: u32) -> (r: Option<char>)
    ensures
        r == typed_char(ks),
{
    if (0x20 <= ks && ks <= 0x7E) || (0xA0 <= ks && ks <= 0xFF) {
        char::from_u32(ks)
    } else if 0x01000000 <= ks && ks <= 0x01FFFFFF {
        char::from_u32(ks - 0x01000000)
    } else {
        None
    }
}

/// A key whose number is a Unicode code point plus `0x01000000` types that character.
pub proof fn law_unicode_keys(c: char)
    ensures
        typed_char((0x01000000 + c as u32) as u32) == Some(c),
{
    vstd::utf8::char_is_scalar(c);
}

/// The keys that steer the launcher type nothing.
pub proof fn law_steering_keys_type_nothing(ks: u32)
    requires
        ks == XK_ESC || ks == XK_RET || ks == XK_BS || ks == XK_DEL || ks == XK_UP || ks == XK_DOWN,
    ensures
        typed_char(ks) is None,
{
}

/// The printable characters of Latin-1 are typed by the keys of their numbers.
pub proof fn law_latin_keys(c: char)
    requires
        ' ' <= c <= '~' || '\u{a0}' <= c <= '\u{ff}',
    ensures
        typed_char(c as u32) == Some(c),
{
    vstd::utf8::char_is_scalar(c);
}

/// No other key types a character: a key that does is that of the character's own number, where
/// that is printable in Latin-1, or of the number plus `0x01000000`.
pub proof fn law_no_other_keys_type(ks: u32, c: char)
    requires
        typed_char(ks) == Some(c),
    ensures
        ks == c as u32 && (' ' <= c <= '~' || '\u{a0}' <= c <= '\u{ff}') || ks == 0x01000000
            + c as u32,
{
}

} // verus!
