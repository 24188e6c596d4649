//! A scene-graph driven, incremental text-terminal renderer: attribute
//! journals with per-consumer cursors, an event normalizer, a flex stacking
//! layout solver, centering and border decorators, a visibility resolver, a
//! global position resolver, and a compositing diff renderer.
pub mod border;
pub mod centering;
pub mod components;
pub mod dirty;
pub mod events;
pub mod game;
pub mod journal;
pub mod normalize;
pub mod render;
pub mod scene;
pub mod stacking;
pub mod tui;
pub mod visibility;

pub use components::{
    Border, Centered, GlobalPosition, Position, ScreenSize, StackDirection, StackingContext,
    StackingRule, TextBlock, Visible, VisibleIfChildIs, ZLevel, MAX_EXTENT, MAX_FLEX, MAX_NODES,
    MAX_RULE_BOUND, MAX_SCREEN,
};
