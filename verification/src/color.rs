//! 8-bit RGBA colors

use vstd::prelude::*;

verus! {

/// a straight-alpha color with 8-bit channels
#[derive(Clone, Copy, Debug, Default, PartialEq, Eq, Hash, Structural)]
pub struct Color {
    pub red: u8,
    pub green: u8,
    pub blue: u8,
    pub alpha: u8,
}

impl Color {
    #[allow(non_snake_case)]
    pub fn BLACK() -> (value: Self)
        ensures
            value == (Color { red: 0, green: 0, blue: 0, alpha: 255 }),
    {
        Color { red: 0, green: 0, blue: 0, alpha: 255 }
    }

    #[allow(non_snake_case)]
    pub fn GRAY() -> (value: Self)
        ensures
            value == (Color { red: 128, green: 128, blue: 128, alpha: 255 }),
    {
        Color { red: 128, green: 128, blue: 128, alpha: 255 }
    }

    #[allow(non_snake_case)]
    pub fn TRANSPARENT() -> (value: Self)
        ensures
            value == (Color { red: 0, green: 0, blue: 0, alpha: 0 }),
    {
        Color { red: 0, green: 0, blue: 0, alpha: 0 }
    }

    #[allow(non_snake_case)]
    pub fn WHITE() -> (value: Self)
        ensures
            value == (Color { red: 255, green: 255, blue: 255, alpha: 255 }),
    {
        Color { red: 255, green: 255, blue: 255, alpha: 255 }
    }


    pub fn from_rgba8(red: u8, green: u8, blue: u8, alpha: u8) -> (color: Self)
        ensures
            color == (Color { red, green, blue, alpha }),
    {
        Color { red, green, blue, alpha }
    }
}

} // verus!
