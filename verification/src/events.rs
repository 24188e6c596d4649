//! The unified UI event stream: the normalizer compares freshly journalled
//! attribute values against its per-node snapshot and emits one semantic
//! event per actual change, which every downstream pass consumes.
use vstd::prelude::*;
use crate::components::{Position, ScreenSize};

verus! {

/// A change to the scene hierarchy: a node was re-parented or orphaned
/// (`Modified`), or left the graph (`Removed`). Carries the node's index.
#[derive(Debug, Clone, Copy, PartialEq, Eq, Structural)]
pub enum HierarchyEvent {
    Modified(u32),
    Removed(u32),
}

/// A semantic UI event, deduplicated against the last known value of the
/// attribute it reports. Node fields are scene indices.
#[derive(Debug, Clone, Copy, PartialEq, Eq, Structural)]
pub enum TuiEvent {
    Position { entity: u32, new: Option<Position>, old: Option<Position> },
    GlobalPosition { entity: u32, new: Option<Position>, old: Option<Position> },
    TextBlock { entity: u32, new_size: Option<Position>, old_size: Option<Position> },
    Visible { entity: u32, new: Option<bool>, old: Option<bool> },
    ZLevel { entity: u32, new: Option<i64>, old: Option<i64> },
    HierarchyModified(u32),
    HierarchyRemoved(u32),
    ScreenSize { new: ScreenSize, old: ScreenSize },
}

/// The normalizer's per-node snapshot of the last values it reported.
#[derive(Debug, Clone, Copy, PartialEq, Eq, Structural)]
pub struct TuiStatus {
    pub position: Option<Position>,
    pub global_position: Option<Position>,
    pub text_block: Option<Position>,
    pub visible: Option<bool>,
    pub zlevel: Option<i64>,
}

/// The snapshot value of a node nothing has been reported for.
pub open spec fn blank_status() -> TuiStatus {
    TuiStatus { position: None, global_position: None, text_block: None, visible: None, zlevel: None }
}

impl TuiStatus {
    pub fn blank() -> (r: Self)
        ensures
            r == (TuiStatus {
                position: None,
                global_position: None,
                text_block: None,
                visible: None,
                zlevel: None,
            }),
    {
        TuiStatus { position: None, global_position: None, text_block: None, visible: None, zlevel: None }
    }
}

/// A structural fault that aborts the frame, identifying the offending node.
/// Every one of these marks a programmer error in the producing collaborator;
/// the store may hold a partially recomputed layout afterwards, and the only
/// recovery is to correct the inputs and run the next frame.
#[derive(Debug, Clone, Copy, PartialEq, Eq, Structural)]
pub enum TuiError {
    /// A nested stacking context had no text block to take its size from.
    StackingWithoutTextBlock { node: u32 },
    /// A centered node, or its parent, had no text block to measure.
    CenteredWithoutTextBlock { node: u32 },
    /// A node carrying a border had no text block to paint into.
    BorderWithoutTextBlock { node: u32 },
    /// A child of a border node had no position to inset by.
    BorderChildWithoutPosition { node: u32 },
    /// A border was asked to draw edges on a block without a full cell of
    /// width and height.
    DegenerateBorder { node: u32 },
    /// A computed coordinate or extent left the range the library stores.
    ExtentOverflow { node: u32 },
    /// A parent edge was refused because it would make a node its own
    /// ancestor.
    HierarchyCycle { node: u32 },
}

/// A terminal output operation, 0-indexed by row and column.
#[derive(Debug, Clone, Copy, PartialEq, Eq, Structural)]
pub enum TermOp {
    /// Move the cursor to (row, col) and write one character.
    Put { row: i64, col: i64, ch: char },
    /// Overwrite a whole row with spaces (issued when the screen size
    /// changes).
    BlankRow { row: i64, width: i64 },
}

} // verus!
