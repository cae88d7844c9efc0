//! Options by which a parent arranges its children, and by which a child
//! says where it wants to go.

use vstd::prelude::*;

verus! {

/// How a parent arranges its children.
#[derive(Clone, Copy, Debug, PartialEq, Eq)]
pub enum ParentLayout {
    /// The children are not arranged.
    NoLayout,
    Dock(DockOptions),
    Stack(StackOrientation),
    Grid,
}

/// Options of a docking parent.
#[derive(Clone, Copy, Debug, PartialEq, Eq)]
pub struct DockOptions {
    pub last_child_fill: bool,
}

/// The direction in which a stacking parent lines up its children.
#[derive(Clone, Copy, Debug, PartialEq, Eq)]
pub enum StackOrientation {
    Horizontal,
    Vertical,
}

/// The edge of a docking parent that a child takes.
#[derive(Clone, Copy, Debug, PartialEq, Eq)]
pub enum DockPosition {
    Top,
    Bottom,
    Left,
    Right,
}

/// The cells of a grid that a child covers.
#[derive(Clone, Copy, Debug, PartialEq, Eq)]
pub struct GridPosition {
    pub row: usize,
    pub column: usize,
    pub row_span: usize,
    pub column_span: usize,
}

/// Where a child sits across the width it is given.
#[derive(Clone, Copy, Debug, PartialEq, Eq)]
pub enum HorizontalAlignment {
    Fill,
    Left,
    Center,
    Right,
}

/// Where a child sits along the height it is given.
#[derive(Clone, Copy, Debug, PartialEq, Eq)]
pub enum VerticalAlignment {
    Fill,
    Top,
    Center,
    Bottom,
}

} // verus!
