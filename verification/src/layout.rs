//! layout axes and child placement options

use vstd::prelude::*;

verus! {

/// layout axis
#[derive(Clone, Copy, Debug, Default, PartialEq, Eq, Structural)]
pub enum Axis {
    Horizontal,
    #[default]
    Vertical,
}

/// child alignment across a layout's flow axis
#[derive(Clone, Copy, Debug, Default, PartialEq, Eq, Structural)]
pub enum Align {
    Start,
    Center,
    End,
    #[default]
    Stretch,
}

/// child distribution along a layout's flow axis
#[derive(Clone, Copy, Debug, Default, PartialEq, Eq, Structural)]
pub enum Justify {
    #[default]
    Start,
    Center,
    End,
    SpaceBetween,
    SpaceAround,
    SpaceEvenly,
}

/// places direct children in supplied local rectangles
#[derive(Clone, Copy, Debug, Default, PartialEq, Eq, Structural)]
pub struct RectLayout;

} // verus!
