//! keyboard and pointer input values

use vstd::prelude::*;

verus! {

/// a logical key press
#[derive(Clone, Copy, Debug, PartialEq, Eq)]
pub struct KeyInput {
    pub key: Key,
    pub modifiers: Modifiers,
    pub pressed: bool,
    pub repeat: bool,
}

impl KeyInput {
    /// a first press of `key` without modifiers
    pub fn new(key: Key) -> (input: Self)
        ensures
            input.key == key && input.modifiers.bits() == 0 && input.pressed && !input.repeat,
    {
        KeyInput { key, modifiers: Modifiers::NONE(), pressed: true, repeat: false }
    }
}

#[derive(Clone, Copy, Debug, PartialEq, Eq)]
pub enum Key {
    /// a logical character key for shortcuts
    Character(char),
    Backspace,
    Delete,
    ArrowLeft,
    ArrowRight,
    ArrowUp,
    ArrowDown,
    Enter,
    Tab,
    Escape,
    Home,
    End,
    PageUp,
    PageDown,
    Insert,
    /// function key number starting at one
    Function(u8),
}

/// the modifier keys held during an input, one bit each
#[derive(Clone, Copy, Debug, Default, PartialEq, Eq, Structural)]
pub struct Modifiers(u8);

/// the bit of each modifier key
pub open spec fn modifier_bits(shift: bool, control: bool, alt: bool, super_key: bool) -> u8 {
    ((if shift { 1u8 } else { 0u8 }) | (if control { 2u8 } else { 0u8 }) | (if alt { 4u8 } else { 0u8 }) | (
    if super_key {
        8u8
    } else {
        0u8
    })) as u8
}

impl Modifiers {
    #[allow(non_snake_case)]
    pub fn ALT() -> (value: Self)
        ensures
            value.bits() == 4,
    {
        Modifiers(4)
    }

    #[allow(non_snake_case)]
    pub fn CONTROL() -> (value: Self)
        ensures
            value.bits() == 2,
    {
        Modifiers(2)
    }

    #[allow(non_snake_case)]
    pub fn NONE() -> (value: Self)
        ensures
            value.bits() == 0,
    {
        Modifiers(0)
    }

    #[allow(non_snake_case)]
    pub fn SHIFT() -> (value: Self)
        ensures
            value.bits() == 1,
    {
        Modifiers(1)
    }

    #[allow(non_snake_case)]
    pub fn SUPER() -> (value: Self)
        ensures
            value.bits() == 8,
    {
        Modifiers(8)
    }


    pub closed spec fn bits(self) -> u8 {
        self.0
    }

    pub fn new(shift: bool, control: bool, alt: bool, super_key: bool) -> (modifiers: Self)
        ensures
            modifiers.bits() == modifier_bits(shift, control, alt, super_key),
    {
        Modifiers(
            shift as u8 * Self::SHIFT().0 | control as u8 * Self::CONTROL().0 | alt as u8 * Self::ALT().0
                | super_key as u8 * Self::SUPER().0,
        )
    }

    /// whether every modifier of `modifiers` is held
    pub fn contains(self, modifiers: Self) -> (held: bool)
        ensures
            held == (self.bits() & modifiers.bits() == modifiers.bits()),
    {
        self.0 & modifiers.0 == modifiers.0
    }

    pub fn shift(self) -> (held: bool)
        ensures
            held == (self.bits() & 1 == 1),
    {
        self.contains(Self::SHIFT())
    }

    pub fn control(self) -> (held: bool)
        ensures
            held == (self.bits() & 2 == 2),
    {
        self.contains(Self::CONTROL())
    }

    pub fn alt(self) -> (held: bool)
        ensures
            held == (self.bits() & 4 == 4),
    {
        self.contains(Self::ALT())
    }

    pub fn super_key(self) -> (held: bool)
        ensures
            held == (self.bits() & 8 == 8),
    {
        self.contains(Self::SUPER())
    }
}

/// each modifier given to `Modifiers::new` is reported back by its query
pub proof fn law_modifiers_round_trip(shift: bool, control: bool, alt: bool, super_key: bool)
    ensures
        (modifier_bits(shift, control, alt, super_key) & 1 == 1) == shift,
        (modifier_bits(shift, control, alt, super_key) & 2 == 2) == control,
        (modifier_bits(shift, control, alt, super_key) & 4 == 4) == alt,
        (modifier_bits(shift, control, alt, super_key) & 8 == 8) == super_key,
{
    let s: u8 = if shift { 1 } else { 0 };
    let c: u8 = if control { 2 } else { 0 };
    let a: u8 = if alt { 4 } else { 0 };
    let k: u8 = if super_key { 8 } else { 0 };
    assert(modifier_bits(shift, control, alt, super_key) == s | c | a | k);
    assert((s == 0 || s == 1) && (c == 0 || c == 2) && (a == 0 || a == 4) && (k == 0 || k == 8) ==> {
        &&& ((s | c | a | k) & 1 == 1) == (s == 1)
        &&& ((s | c | a | k) & 2 == 2) == (c == 2)
        &&& ((s | c | a | k) & 4 == 4) == (a == 4)
        &&& ((s | c | a | k) & 8 == 8) == (k == 8)
    }) by (bit_vector);
}

#[derive(Clone, Copy, Debug, Default, PartialEq, Eq, Structural)]
pub enum PointerButton {
    #[default]
    Primary,
    Secondary,
    Middle,
    Back,
    Forward,
    Other(u16),
}

} // verus!
