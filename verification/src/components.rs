//! Attribute types that can be attached to a scene-graph node: local and
//! global offsets, text content with a declared size, visibility, paint
//! priority, and the layout / decorator parameters.
use vstd::prelude::*;

verus! {

/// Largest magnitude the library will store for a coordinate or an extent.
/// Layout passes refuse (with an error) to store anything larger, which keeps
/// every sum that the passes build well inside `i64`.
pub const MAX_EXTENT: i64 = 0x1000_0000_0000;

/// Largest magnitude accepted for a min/max bound of a `StackingRule`.
pub const MAX_RULE_BOUND: i64 = 0x10_0000;

/// Largest flex weight accepted for a `StackingRule`.
pub const MAX_FLEX: u32 = 0x10_0000;

/// Largest terminal width or height accepted by `run_frame`.
pub const MAX_SCREEN: i64 = 0x10_0000;

/// Most nodes a scene may hold at once: the largest power of two for which
/// every sum the passes build stays provably inside `i64` — an ancestor
/// chain or a stacking pass touches at most this many nodes, each
/// contributing a magnitude of at most `MAX_EXTENT`, and their running sums
/// must not overflow.
pub const MAX_NODES: usize = 0x1_0000;

/// A local (x, y) offset in character cells, relative to the parent node's
/// origin.
#[derive(Debug, Clone, Copy, PartialEq, Eq, Structural)]
pub struct Position {
    pub x: i64,
    pub y: i64,
}

impl Position {
    pub fn new(x: i64, y: i64) -> (r: Self)
        ensures
            r == (Position { x, y }),
    {
        Position { x, y }
    }

    /// Wraps this offset as an absolute position.
    pub fn global(self) -> (r: GlobalPosition)
        ensures
            r.0 == self,
    {
        GlobalPosition(self)
    }
}

/// An absolute (x, y) screen position: the sum of the local offsets along the
/// node's ancestor chain. Derived by the renderer, never authored.
#[derive(Debug, Clone, Copy, PartialEq, Eq, Structural)]
pub struct GlobalPosition(pub Position);

impl GlobalPosition {
    pub fn new(x: i64, y: i64) -> (r: Self)
        ensures
            r.0 == (Position { x, y }),
    {
        GlobalPosition(Position { x, y })
    }
}

/// Text content of a node: a declared width and height, and the rows to
/// show, each a sequence of characters. Each row is logically padded with
/// spaces, or truncated, to the declared width; missing rows are blank.
#[derive(Debug, Clone)]
pub struct TextBlock {
    pub rows: Vec<Vec<char>>,
    pub width: i64,
    pub height: i64,
}

impl TextBlock {
    pub fn new(rows: Vec<Vec<char>>, width: i64, height: i64) -> (r: Self)
        ensures
            r.rows == rows,
            r.width == width,
            r.height == height,
    {
        TextBlock { rows, width, height }
    }

    /// A one-row block whose declared width is the length of the text.
    pub fn single_row(text: Vec<char>) -> (r: Self)
        requires
            text@.len() <= MAX_EXTENT,
        ensures
            r.rows@.len() == 1,
            r.rows@[0] == text,
            r.width == text@.len(),
            r.height == 1,
    {
        let width = text.len() as i64;
        let mut rows: Vec<Vec<char>> = Vec::new();
        rows.push(text);
        TextBlock { rows, width, height: 1 }
    }

    /// A block of the given size with no content rows (all blank).
    pub fn empty(width: i64, height: i64) -> (r: Self)
        ensures
            r.rows@.len() == 0,
            r.width == width,
            r.height == height,
    {
        TextBlock { rows: Vec::new(), width, height }
    }
}

/// Explicit visibility of a node; a node without one counts as visible.
#[derive(Debug, Clone, Copy, PartialEq, Eq, Structural)]
pub struct Visible(pub bool);

impl Visible {
    pub fn new(visible: bool) -> (r: Self)
        ensures
            r.0 == visible,
    {
        Visible(visible)
    }
}

/// Paint priority: when two visible regions cover the same cell, the higher
/// level wins; a node without one counts as level 0.
#[derive(Debug, Clone, Copy, PartialEq, Eq, Structural)]
pub struct ZLevel(pub i64);

impl ZLevel {
    pub fn new(level: i64) -> (r: Self)
        ensures
            r.0 == level,
    {
        ZLevel(level)
    }
}

/// Axis along which a stacking context distributes its extent.
#[derive(Debug, Clone, Copy, PartialEq, Eq, Structural)]
pub enum StackDirection {
    Horizontal,
    Vertical,
}

/// Marks a node as a layout container that distributes one axis of its size
/// across its flex-eligible children.
#[derive(Debug, Clone, Copy, PartialEq, Eq, Structural)]
pub struct StackingContext {
    pub direction: StackDirection,
}

impl StackingContext {
    pub fn horizontal() -> (r: Self)
        ensures
            r.direction == StackDirection::Horizontal,
    {
        StackingContext { direction: StackDirection::Horizontal }
    }

    pub fn vertical() -> (r: Self)
        ensures
            r.direction == StackDirection::Vertical,
    {
        StackingContext { direction: StackDirection::Vertical }
    }
}

/// Per-child layout constraints: optional min/max bounds per axis and a flex
/// weight. Marks the child as participating in its parent's distribution.
#[derive(Debug, Clone, Copy, PartialEq)]
pub struct StackingRule {
    pub max_width: Option<i64>,
    pub min_width: Option<i64>,
    pub max_height: Option<i64>,
    pub min_height: Option<i64>,
    pub flex: u32,
}

impl StackingRule {
    pub fn new() -> (r: Self)
        ensures
            r.max_width is None,
            r.min_width is None,
            r.max_height is None,
            r.min_height is None,
            r.flex == 1u32,
    {
        StackingRule {
            max_width: None,
            min_width: None,
            max_height: None,
            min_height: None,
            flex: 1,
        }
    }

    pub fn max_width(self, value: i64) -> (r: Self)
        ensures
            r == (StackingRule { max_width: Some(value), ..self }),
    {
        StackingRule { max_width: Some(value), ..self }
    }

    pub fn min_width(self, value: i64) -> (r: Self)
        ensures
            r == (StackingRule { min_width: Some(value), ..self }),
    {
        StackingRule { min_width: Some(value), ..self }
    }

    pub fn max_height(self, value: i64) -> (r: Self)
        ensures
            r == (StackingRule { max_height: Some(value), ..self }),
    {
        StackingRule { max_height: Some(value), ..self }
    }

    pub fn min_height(self, value: i64) -> (r: Self)
        ensures
            r == (StackingRule { min_height: Some(value), ..self }),
    {
        StackingRule { min_height: Some(value), ..self }
    }

    pub fn flex(self, value: u32) -> (r: Self)
        ensures
            r == (StackingRule { flex: value, ..self }),
    {
        StackingRule { flex: value, ..self }
    }
}

/// Centers a node inside its parent, per axis.
#[derive(Debug, Clone, Copy, PartialEq, Eq, Structural)]
pub struct Centered {
    pub horizontal: bool,
    pub vertical: bool,
}

impl Centered {
    pub fn new(horizontal: bool, vertical: bool) -> (r: Self)
        ensures
            r.horizontal == horizontal,
            r.vertical == vertical,
    {
        Centered { horizontal, vertical }
    }
}

/// A visual border. The node carrying it paints a rectangle outline into its
/// own text block; its children's declared sizes are shrunk so the content
/// stays inside the drawn edges.
#[derive(Debug, Clone, Copy, PartialEq, Eq, Structural)]
pub struct Border {
    pub left: bool,
    pub right: bool,
    pub top: bool,
    pub bottom: bool,
    pub cross_top_left: bool,
    pub cross_top_right: bool,
    pub cross_bottom_left: bool,
    pub cross_bottom_right: bool,
}

impl Border {
    pub fn new() -> (r: Self)
        ensures
            r == (Border {
                left: false,
                right: false,
                top: false,
                bottom: false,
                cross_top_left: false,
                cross_top_right: false,
                cross_bottom_left: false,
                cross_bottom_right: false,
            }),
    {
        Border {
            left: false,
            right: false,
            top: false,
            bottom: false,
            cross_top_left: false,
            cross_top_right: false,
            cross_bottom_left: false,
            cross_bottom_right: false,
        }
    }

    pub fn top(self) -> (r: Self)
        ensures
            r == (Border { top: true, ..self }),
    {
        Border { top: true, ..self }
    }

    pub fn bottom(self) -> (r: Self)
        ensures
            r == (Border { bottom: true, ..self }),
    {
        Border { bottom: true, ..self }
    }

    pub fn left(self) -> (r: Self)
        ensures
            r == (Border { left: true, ..self }),
    {
        Border { left: true, ..self }
    }

    pub fn right(self) -> (r: Self)
        ensures
            r == (Border { right: true, ..self }),
    {
        Border { right: true, ..self }
    }

    pub fn sides(self, left: bool, right: bool, top: bool, bottom: bool) -> (r: Self)
        ensures
            r == (Border { left, right, top, bottom, ..self }),
    {
        Border { left, right, top, bottom, ..self }
    }

    pub fn crosses(
        self,
        cross_top_left: bool,
        cross_top_right: bool,
        cross_bottom_left: bool,
        cross_bottom_right: bool,
    ) -> (r: Self)
        ensures
            r == (Border {
                cross_top_left,
                cross_top_right,
                cross_bottom_left,
                cross_bottom_right,
                ..self
            }),
    {
        Border { cross_top_left, cross_top_right, cross_bottom_left, cross_bottom_right, ..self }
    }
}

/// Marks a node whose visibility is derived: it is visible exactly when at
/// least one direct child is visible.
#[derive(Debug, Clone, Copy, PartialEq, Eq, Structural)]
pub struct VisibleIfChildIs;

/// The terminal's size in character cells.
#[derive(Debug, Clone, Copy, PartialEq, Eq, Structural)]
pub struct ScreenSize {
    pub width: i64,
    pub height: i64,
}

} // verus!
