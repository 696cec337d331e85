use vstd::prelude::*;

verus! {

/// The axis and direction along which a flex container lays out its items.
#[derive(Debug, Clone, Copy, PartialEq, Eq, Structural)]
pub enum FlexDirection {
    Row,
    RowReverse,
    Column,
    ColumnReverse,
}

/// Whether flex items wrap onto further lines.
#[derive(Debug, Clone, Copy, PartialEq, Eq, Structural)]
pub enum FlexWrap {
    NoWrap,
    Wrap,
    WrapReverse,
}

/// How items are spread along the main axis.
#[derive(Debug, Clone, Copy, PartialEq, Eq, Structural)]
pub enum JustifyContent {
    FlexStart,
    FlexEnd,
    Center,
    SpaceBetween,
    SpaceAround,
    SpaceEvenly,
}

/// How items are placed on the cross axis.
#[derive(Debug, Clone, Copy, PartialEq, Eq, Structural)]
pub enum AlignItems {
    FlexStart,
    FlexEnd,
    Center,
    Baseline,
}

/// How lines are placed on the cross axis.
#[derive(Debug, Clone, Copy, PartialEq, Eq, Structural)]
pub enum AlignContent {
    FlexStart,
    FlexEnd,
    Center,
    SpaceBetween,
    SpaceAround,
    SpaceEvenly,
}

/// The rows and columns, as start and end lines, that a grid item spans.
#[derive(Debug, Clone, Copy, PartialEq, Eq)]
pub struct GritItem {
    pub row: [usize; 2],
    pub column: [usize; 2],
}

/// Whether a box is drawn and whether it takes room.
#[derive(Debug, Clone, Copy, PartialEq, Eq, Structural)]
pub enum Visibility {
    Visible,
    Hidden,
    /// Neither drawn nor laid out (the CSS `none`).
    Removed,
}

impl Default for Visibility {
    fn default() -> (r: Self)
        ensures
            r == Visibility::Visible,
    {
        Visibility::Visible
    }
}

/// Whether a box's size counts its padding and border.
#[derive(Debug, Clone, Copy, PartialEq, Eq, Structural)]
pub enum BoxSizing {
    ContentBox,
    BorderBox,
}

impl Default for BoxSizing {
    fn default() -> (r: Self)
        ensures
            r == BoxSizing::BorderBox,
    {
        BoxSizing::BorderBox
    }
}

/// The mouse cursor shown over a widget.
#[derive(Debug, Clone, Copy, PartialEq, Eq, Structural)]
pub enum Cursor {
    Default,
    Pointer,
    Text,
    Move,
    Help,
    Wait,
    Progress,
    NotAllowed,
    NResize,
    EResize,
    SResize,
    WResize,
    NeResize,
    NwResize,
    SeResize,
    SwResize,
    EwResize,
    NsResize,
    NeswResize,
    NwseResize,
    ColResize,
    RowResize,
    AllScroll,
    ZoomIn,
    ZoomOut,
    Grab,
    Grabbing,
    /// No cursor is shown (the CSS `none`).
    NoCursor,
}

impl Default for Cursor {
    fn default() -> (r: Self)
        ensures
            r == Cursor::Default,
    {
        Cursor::Default
    }
}

} // verus!
