//! Layout vocabulary: sizes, flex settings, positioning, scrolling and overflow.
use vstd::prelude::*;

verus! {

/// A width and a height.
#[derive(Debug, Clone, Copy, PartialEq, Eq, Structural)]
pub struct Size<T> {
    pub width: T,
    pub height: T,
}

#[derive(Debug, Clone, Copy, PartialEq, Eq, Structural)]
pub enum FlexDirection {
    Row,
    Column,
    RowReverse,
    ColumnReverse,
}

#[derive(Debug, Clone, Copy, PartialEq, Eq, Structural)]
pub enum JustifyContent {
    Start,
    Center,
    End,
    SpaceBetween,
    SpaceAround,
    SpaceEvenly,
}

#[derive(Debug, Clone, Copy, PartialEq, Eq, Structural)]
pub enum AlignItems {
    Start,
    Center,
    End,
    Stretch,
    Baseline,
}

#[derive(Debug, Clone, Copy, PartialEq, Eq, Structural)]
pub enum FlexWrap {
    NoWrap,
    Wrap,
    WrapReverse,
}

/// A point of a box that a fixed or absolute position refers to.
#[derive(Debug, Clone, Copy, PartialEq, Eq, Structural)]
pub enum Anchor {
    TopLeft,
    Top,
    TopRight,
    Left,
    Center,
    Right,
    BottomLeft,
    Bottom,
    BottomRight,
}

impl Default for Anchor {
    fn default() -> (r: Self)
        ensures
            r == Anchor::Center,
    {
        Anchor::Center
    }
}

/// How a component is placed.
#[derive(Debug, Clone, Copy, PartialEq, Eq, Structural)]
pub enum Position {
    /// Follows the flex layout of its parent.
    Flex,
    /// Fixed relative to the parent.
    Fixed(Anchor),
    /// Absolute, relative to the root.
    Absolute(Anchor),
    /// A cell of a grid: row, then column.
    Grid(usize, usize),
}

impl Default for Position {
    fn default() -> (r: Self)
        ensures
            r == Position::Flex,
    {
        Position::Flex
    }
}

#[derive(Debug, Clone, Copy, PartialEq, Eq, Structural)]
pub enum ScrollOrientation {
    Vertical,
    Horizontal,
}

#[derive(Debug, Clone, Copy, PartialEq, Eq, Structural)]
pub enum Overflow {
    Visible,
    Hidden,
    Scroll,
}

} // verus!
