//! placement targets of child-bearing containers

use vstd::prelude::*;

use crate::interact::WidgetId;

verus! {

/// coordinate space used by absolute placement
#[derive(Clone, Copy, Debug, Default, PartialEq, Eq, Structural)]
pub enum PositionTarget {
    #[default]
    Parent,
    Widget(WidgetId),
    Screen,
}

/// point on a rectangle used for absolute attachment
#[derive(Clone, Copy, Debug, Default, PartialEq, Eq, Structural)]
pub enum Anchor {
    #[default]
    TopLeft,
    Top,
    TopRight,
    Left,
    Center,
    Right,
    BottomLeft,
    Bottom,
    BottomRight,
}

} // verus!
