//! retained element descriptions

use vstd::prelude::*;

use crate::color::Color;

pub use crate::layout::{Align, Axis, Justify};

verus! {

/// selection painted behind text, as a byte range
#[derive(Clone, Copy, Debug, PartialEq, Eq, Structural)]
pub struct TextSelection {
    pub start: usize,
    pub end: usize,
    pub color: Color,
}

} // verus!
