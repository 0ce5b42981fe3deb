//! Keyboard accelerators in a portable form, and their native form.
use vstd::prelude::*;

verus! {

/// The modifier keys held with an accelerator's key.
#[derive(Debug, Clone, Copy, PartialEq, Eq, Structural)]
pub struct Modifiers {
    pub shift: bool,
    pub control: bool,
    pub alt: bool,
    pub meta: bool,
}

/// The key of an accelerator.
#[derive(Debug, Clone, Copy, PartialEq, Eq, Structural)]
pub enum Code {
    /// The letter keys `A` to `Z`, by position in the alphabet (`0` is `A`).
    Letter(u8),
    /// The digit keys `0` to `9`.
    Digit(u8),
    /// The function keys `F1` to `F12`, by number.
    Function(u8),
    Enter,
    Escape,
    Space,
    Tab,
    Backspace,
    Delete,
}

/// A portable accelerator: a set of modifiers and a key.
#[derive(Debug, Clone, Copy, PartialEq, Eq, Structural)]
pub struct Accelerator {
    pub modifiers: Modifiers,
    pub key: Code,
}


/// GDK's mask bits for the four modifiers.
pub const SHIFT_MASK: u32 = 1;
pub const CONTROL_MASK: u32 = 4;
pub const ALT_MASK: u32 = 8;
pub const META_MASK: u32 = 0x4000000;

/// An accelerator whose key is one that exists.
pub open spec fn valid_code(c: Code) -> bool {
    match c {
        Code::Letter(i) => i < 26,
        Code::Digit(d) => d < 10,
        Code::Function(n) => 1 <= n <= 12,
        _ => true,
    }
}

/// Whether `c` names a key that exists.
pub fn is_valid_code(c: Code) -> (r: bool)
    ensures
        r == valid_code(c),
{
    match c {
        Code::Letter(i) => i < 26,
        Code::Digit(d) => d < 10,
        Code::Function(n) => 1 <= n && n <= 12,
        _ => true,
    }
}

/// The native key value of a key: its GDK keysym.
pub open spec fn keyval_spec(c: Code) -> u32 {
    match c {
        Code::Letter(i) => (0x61 + i) as u32,
        Code::Digit(d) => (0x30 + d) as u32,
        Code::Function(n) => (0xffbe + n - 1) as u32,
        Code::Enter => 0xff0d,
        Code::Escape => 0xff1b,
        Code::Space => 0x20,
        Code::Tab => 0xff09,
        Code::Backspace => 0xff08,
        Code::Delete => 0xffff,
    }
}

pub open spec fn bit(b: bool, mask: u32) -> u32 {
    if b {
        mask
    } else {
        0
    }
}

/// The native modifier mask of a set of modifiers.
pub open spec fn mask_spec(m: Modifiers) -> u32 {
    bit(m.shift, SHIFT_MASK) | bit(m.control, CONTROL_MASK) | bit(m.alt, ALT_MASK) | bit(m.meta, META_MASK)
}

/// The key for a native key value, if it is one of the portable keys.
pub open spec fn code_of_keyval(k: u32) -> Option<Code> {
    if 0x61 <= k < 0x61 + 26 {
        Some(Code::Letter((k - 0x61) as u8))
    } else if 0x30 <= k < 0x30 + 10 {
        Some(Code::Digit((k - 0x30) as u8))
    } else if 0xffbe <= k < 0xffbe + 12 {
        Some(Code::Function((k - 0xffbe + 1) as u8))
    } else if k == 0xff0d {
        Some(Code::Enter)
    } else if k == 0xff1b {
        Some(Code::Escape)
    } else if k == 0x20 {
        Some(Code::Space)
    } else if k == 0xff09 {
        Some(Code::Tab)
    } else if k == 0xff08 {
        Some(Code::Backspace)
    } else if k == 0xffff {
        Some(Code::Delete)
    } else {
        None
    }
}

/// The modifiers that a native mask holds.
pub open spec fn modifiers_of_mask(mask: u32) -> Modifiers {
    Modifiers {
        shift: mask & SHIFT_MASK != 0,
        control: mask & CONTROL_MASK != 0,
        alt: mask & ALT_MASK != 0,
        meta: mask & META_MASK != 0,
    }
}

/// The native form of an accelerator: key value and modifier mask.
pub fn to_native_accelerator(a: &Accelerator) -> (r: (u32, u32))
    requires
        valid_code(a.key),
    ensures
        r == (keyval_spec(a.key), mask_spec(a.modifiers)),
{
    let key: u32 = match a.key {
        Code::Letter(i) => 0x61 + i as u32,
        Code::Digit(d) => 0x30 + d as u32,
        Code::Function(n) => 0xffbe + n as u32 - 1,
        Code::Enter => 0xff0d,
        Code::Escape => 0xff1b,
        Code::Space => 0x20,
        Code::Tab => 0xff09,
        Code::Backspace => 0xff08,
        Code::Delete => 0xffff,
    };
    let s: u32 = if a.modifiers.shift { SHIFT_MASK } else { 0 };
    let c: u32 = if a.modifiers.control { CONTROL_MASK } else { 0 };
    let t: u32 = if a.modifiers.alt { ALT_MASK } else { 0 };
    let m: u32 = if a.modifiers.meta { META_MASK } else { 0 };
    (key, s | c | t | m)
}

/// The portable accelerator for a native key value and modifier mask, when
/// the key is one of the portable keys.
pub fn from_native_accelerator(key: u32, mask: u32) -> (r: Option<Accelerator>)
    ensures
        r == (match code_of_keyval(key) {
            Some(c) => Some(Accelerator { modifiers: modifiers_of_mask(mask), key: c }),
            None => None,
        }),
{
    let code = if 0x61 <= key && key < 0x61 + 26 {
        Code::Letter((key - 0x61) as u8)
    } else if 0x30 <= key && key < 0x30 + 10 {
        Code::Digit((key - 0x30) as u8)
    } else if 0xffbe <= key && key < 0xffbe + 12 {
        Code::Function((key - 0xffbe + 1) as u8)
    } else if key == 0xff0d {
        Code::Enter
    } else if key == 0xff1b {
        Code::Escape
    } else if key == 0x20 {
        Code::Space
    } else if key == 0xff09 {
        Code::Tab
    } else if key == 0xff08 {
        Code::Backspace
    } else if key == 0xffff {
        Code::Delete
    } else {
        return None;
    };
    let modifiers = Modifiers {
        shift: mask & SHIFT_MASK != 0,
        control: mask & CONTROL_MASK != 0,
        alt: mask & ALT_MASK != 0,
        meta: mask & META_MASK != 0,
    };
    Some(Accelerator { modifiers, key: code })
}

/// Translating an accelerator to its native form and back gives it
/// unchanged.
pub proof fn lemma_accelerator_round_trip(a: Accelerator)
    requires
        valid_code(a.key),
    ensures
        code_of_keyval(keyval_spec(a.key)) == Some(a.key),
        modifiers_of_mask(mask_spec(a.modifiers)) == a.modifiers,
{
    let s = bit(a.modifiers.shift, SHIFT_MASK);
    let c = bit(a.modifiers.control, CONTROL_MASK);
    let t = bit(a.modifiers.alt, ALT_MASK);
    let m = bit(a.modifiers.meta, META_MASK);
    assert((s == 0 || s == 1) && (c == 0 || c == 4) && (t == 0 || t == 8) && (m == 0 || m == 0x4000000));
    assert(((s | c | t | m) & 1 != 0) == (s != 0) && ((s | c | t | m) & 4 != 0) == (c != 0)
        && ((s | c | t | m) & 8 != 0) == (t != 0) && ((s | c | t | m) & 0x4000000 != 0) == (m != 0)) by (bit_vector)
        requires
            (s == 0 || s == 1) && (c == 0 || c == 4) && (t == 0 || t == 8) && (m == 0 || m == 0x4000000),
    ;
}

} // verus!
