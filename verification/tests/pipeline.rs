//! End-to-end frames: layout, visibility, absolute positions, compositing
//! and the diff writer.
use tui_core::components::{
    Border, Centered, Position, ScreenSize, StackingContext, StackingRule, TextBlock,
};
use tui_core::events::{TermOp, TuiError};
use tui_core::scene::Entity;
use tui_core::tui::Tui;

fn screen(w: i64, h: i64) -> ScreenSize {
    ScreenSize { width: w, height: h }
}

fn chars(s: &str) -> Vec<char> {
    s.chars().collect()
}

fn block_size(t: &Tui, e: Entity) -> (i64, i64) {
    let tb = t.get_text_block(e).expect("node should have a text block");
    (tb.width, tb.height)
}

/// The flex scenario: a horizontal context of width 100 with two children,
/// one {min_width 15, flex 1} and one {max_width 80, min_width 50, flex 2}.
/// Hand-computed freeze iterations: the first pass shares out
/// floor(100 / 3) = 33 cells per flex unit, neither child violates a bound
/// (33 >= 15, 50 <= 66 <= 80), and the last child absorbs the remainder,
/// giving widths (33, 67).
#[test]
fn flex_scenario_two_children() {
    let mut t = Tui::new();
    let root = t.create_node().unwrap();
    t.set_stacking_context(root, StackingContext::horizontal());
    let a = t.create_node().unwrap();
    t.set_stacking_rule(a, StackingRule::new().min_width(15));
    t.set_parent(a, root).unwrap();
    let b = t.create_node().unwrap();
    t.set_stacking_rule(b, StackingRule::new().max_width(80).min_width(50).flex(2));
    t.set_parent(b, root).unwrap();
    t.run_frame(screen(100, 5)).unwrap();
    assert_eq!(block_size(&t, root), (100, 5));
    assert_eq!(block_size(&t, a), (33, 5));
    assert_eq!(block_size(&t, b), (67, 5));
    assert_eq!(t.get_position(a), Some(Position { x: 0, y: 0 }));
    assert_eq!(t.get_position(b), Some(Position { x: 33, y: 0 }));
}

/// Flex conservation on an unconstrained three-way split: the last child
/// absorbs the rounding remainder so the extents sum exactly to the
/// container's width.
#[test]
fn flex_conservation_exact_sum() {
    let mut t = Tui::new();
    let root = t.create_node().unwrap();
    t.set_stacking_context(root, StackingContext::horizontal());
    let mut kids = Vec::new();
    for _ in 0..3 {
        let c = t.create_node().unwrap();
        t.set_stacking_rule(c, StackingRule::new());
        t.set_parent(c, root).unwrap();
        kids.push(c);
    }
    t.run_frame(screen(100, 2)).unwrap();
    let w0 = block_size(&t, kids[0]).0;
    let w1 = block_size(&t, kids[1]).0;
    let w2 = block_size(&t, kids[2]).0;
    assert_eq!(w0, 33);
    assert_eq!(w1, 33);
    assert_eq!(w2, 34);
    assert_eq!(w0 + w1 + w2, 100);
}

/// Conservation with a frozen final child: the remainder moves to the last
/// unfrozen child in layout order, so the extents still sum exactly to the
/// container's width (floor(91 / 2) = 45 per flex unit after the freeze).
#[test]
fn flex_conservation_with_frozen_tail() {
    let mut t = Tui::new();
    let root = t.create_node().unwrap();
    t.set_stacking_context(root, StackingContext::horizontal());
    let a = t.create_node().unwrap();
    t.set_stacking_rule(a, StackingRule::new());
    t.set_parent(a, root).unwrap();
    let b = t.create_node().unwrap();
    t.set_stacking_rule(b, StackingRule::new());
    t.set_parent(b, root).unwrap();
    let c = t.create_node().unwrap();
    t.set_stacking_rule(c, StackingRule::new().max_width(10));
    t.set_parent(c, root).unwrap();
    t.run_frame(screen(101, 1)).unwrap();
    let wa = block_size(&t, a).0;
    let wb = block_size(&t, b).0;
    let wc = block_size(&t, c).0;
    assert_eq!(wc, 10);
    assert_eq!(wa, 45);
    assert_eq!(wb, 46);
    assert_eq!(wa + wb + wc, 101);
}

/// Min respect with a freeze iteration: a child whose share falls under its
/// minimum is frozen at that bound, and the remainder goes to the rest.
#[test]
fn flex_min_freeze() {
    let mut t = Tui::new();
    let root = t.create_node().unwrap();
    t.set_stacking_context(root, StackingContext::horizontal());
    let a = t.create_node().unwrap();
    t.set_stacking_rule(a, StackingRule::new().min_width(40));
    t.set_parent(a, root).unwrap();
    let b = t.create_node().unwrap();
    t.set_stacking_rule(b, StackingRule::new());
    t.set_parent(b, root).unwrap();
    t.run_frame(screen(60, 1)).unwrap();
    assert_eq!(block_size(&t, a).0, 40);
    assert_eq!(block_size(&t, b).0, 20);
}

/// A vertical context distributes heights and fills widths across.
#[test]
fn vertical_stacking() {
    let mut t = Tui::new();
    let root = t.create_node().unwrap();
    t.set_stacking_context(root, StackingContext::vertical());
    let a = t.create_node().unwrap();
    t.set_stacking_rule(a, StackingRule::new());
    t.set_parent(a, root).unwrap();
    let b = t.create_node().unwrap();
    t.set_stacking_rule(b, StackingRule::new());
    t.set_parent(b, root).unwrap();
    t.run_frame(screen(10, 8)).unwrap();
    assert_eq!(block_size(&t, a), (10, 4));
    assert_eq!(block_size(&t, b), (10, 4));
    assert_eq!(t.get_position(b), Some(Position { x: 0, y: 4 }));
}

/// Idempotence: running the pipeline again with no intervening changes
/// emits no terminal write at all.
#[test]
fn pipeline_idempotent() {
    let mut t = Tui::new();
    let root = t.create_node().unwrap();
    t.set_stacking_context(root, StackingContext::horizontal());
    let a = t.create_node().unwrap();
    t.set_stacking_rule(a, StackingRule::new().min_width(15));
    t.set_parent(a, root).unwrap();
    let first = t.run_frame(screen(40, 4)).unwrap();
    assert!(!first.is_empty());
    let second = t.run_frame(screen(40, 4)).unwrap();
    assert!(second.is_empty());
    let third = t.run_frame(screen(40, 4)).unwrap();
    assert!(third.is_empty());
}

/// Visibility propagation: an aggregator with children {false, false, true}
/// derives true; flipping the last child drives it to false.
#[test]
fn visibility_aggregation() {
    let mut t = Tui::new();
    let agg = t.create_node().unwrap();
    t.set_visible_if_child(agg, true);
    let mut kids = Vec::new();
    for vis in [false, false, true] {
        let c = t.create_node().unwrap();
        t.set_parent(c, agg).unwrap();
        t.set_visible(c, vis);
        kids.push(c);
    }
    t.run_frame(screen(10, 2)).unwrap();
    assert_eq!(t.get_visible(agg), Some(true));
    t.set_visible(kids[2], false);
    t.run_frame(screen(10, 2)).unwrap();
    assert_eq!(t.get_visible(agg), Some(false));
}

/// Global position correctness: a chain with local offsets (0,0), (2,3),
/// (1,1) resolves the leaf to (3,4).
#[test]
fn global_position_chain() {
    let mut t = Tui::new();
    let root = t.create_node().unwrap();
    t.set_position(root, Position { x: 0, y: 0 });
    t.set_text_block(root, TextBlock::empty(1, 1));
    let a = t.create_node().unwrap();
    t.set_parent(a, root).unwrap();
    t.set_position(a, Position { x: 2, y: 3 });
    t.set_text_block(a, TextBlock::empty(1, 1));
    let b = t.create_node().unwrap();
    t.set_parent(b, a).unwrap();
    t.set_position(b, Position { x: 1, y: 1 });
    t.set_text_block(b, TextBlock::empty(1, 1));
    t.run_frame(screen(20, 20)).unwrap();
    assert_eq!(t.global_position(a), Some(Position { x: 2, y: 3 }));
    assert_eq!(t.global_position(b), Some(Position { x: 3, y: 4 }));
}

/// Diff minimality: changing one character of one row leads to exactly one
/// cell write.
#[test]
fn diff_single_cell() {
    let mut t = Tui::new();
    let root = t.create_node().unwrap();
    let leaf = t.create_node().unwrap();
    t.set_parent(leaf, root).unwrap();
    t.set_position(leaf, Position { x: 0, y: 0 });
    t.set_text_block(leaf, TextBlock::new(vec![chars("hello")], 5, 1));
    t.run_frame(screen(10, 3)).unwrap();
    t.set_text_block(leaf, TextBlock::new(vec![chars("hxllo")], 5, 1));
    let ops = t.run_frame(screen(10, 3)).unwrap();
    assert_eq!(ops, vec![TermOp::Put { row: 0, col: 1, ch: 'x' }]);
}

/// Resize scenario: exactly the root stacking context's subtree recomputes;
/// a sibling subtree rooted elsewhere keeps every value.
#[test]
fn resize_recomputes_only_contexts() {
    let mut t = Tui::new();
    let ctx = t.create_node().unwrap();
    t.set_stacking_context(ctx, StackingContext::horizontal());
    let child = t.create_node().unwrap();
    t.set_stacking_rule(child, StackingRule::new());
    t.set_parent(child, ctx).unwrap();
    let other_root = t.create_node().unwrap();
    let leaf = t.create_node().unwrap();
    t.set_parent(leaf, other_root).unwrap();
    t.set_position(leaf, Position { x: 0, y: 0 });
    t.set_text_block(leaf, TextBlock::new(vec![chars("abc")], 3, 1));
    t.run_frame(screen(80, 24)).unwrap();
    assert_eq!(block_size(&t, child), (80, 24));
    t.run_frame(screen(100, 30)).unwrap();
    assert_eq!(block_size(&t, ctx), (100, 30));
    assert_eq!(block_size(&t, child), (100, 30));
    // the unrelated subtree kept its authored geometry untouched
    assert_eq!(block_size(&t, leaf), (3, 1));
    assert_eq!(t.get_position(leaf), Some(Position { x: 0, y: 0 }));
}

/// Centering halves the difference of the extents with floor division: a
/// 3-wide block in a 4-wide parent lands at (4 - 3) / 2 = 0.
#[test]
fn centering_floor_division_on_odd_sizes() {
    let mut t = Tui::new();
    let root = t.create_node().unwrap();
    let outer = t.create_node().unwrap();
    t.set_parent(outer, root).unwrap();
    t.set_position(outer, Position { x: 0, y: 0 });
    let inner = t.create_node().unwrap();
    t.set_parent(inner, outer).unwrap();
    t.set_centered(inner, Centered::new(true, false));
    t.set_text_block(inner, TextBlock::new(vec![chars("abc")], 3, 1));
    t.set_text_block(outer, TextBlock::empty(4, 1));
    t.run_frame(screen(8, 2)).unwrap();
    assert_eq!(t.get_position(inner), Some(Position { x: 0, y: 0 }));
}

/// A centered node also reacts to its own size changing, not only the
/// parent's.
#[test]
fn centering_reacts_to_own_size() {
    let mut t = Tui::new();
    let root = t.create_node().unwrap();
    let outer = t.create_node().unwrap();
    t.set_parent(outer, root).unwrap();
    t.set_position(outer, Position { x: 0, y: 0 });
    t.set_text_block(outer, TextBlock::empty(10, 1));
    let inner = t.create_node().unwrap();
    t.set_parent(inner, outer).unwrap();
    t.set_centered(inner, Centered::new(true, false));
    t.set_text_block(inner, TextBlock::new(vec![chars("ab")], 2, 1));
    t.run_frame(screen(12, 2)).unwrap();
    assert_eq!(t.get_position(inner), Some(Position { x: 4, y: 0 }));
    // shrink the node itself; only its own size event arrives
    t.set_text_block(inner, TextBlock::empty(0, 1));
    t.run_frame(screen(12, 2)).unwrap();
    assert_eq!(t.get_position(inner), Some(Position { x: 5, y: 0 }));
}

/// The centering decorator puts a block in the middle of its parent.
#[test]
fn centering_centers() {
    let mut t = Tui::new();
    let root = t.create_node().unwrap();
    let frame_node = t.create_node().unwrap();
    t.set_parent(frame_node, root).unwrap();
    t.set_position(frame_node, Position { x: 0, y: 0 });
    let inner = t.create_node().unwrap();
    t.set_parent(inner, frame_node).unwrap();
    t.set_centered(inner, Centered::new(true, true));
    t.set_text_block(inner, TextBlock::new(vec![chars("hi")], 2, 2));
    t.set_text_block(frame_node, TextBlock::empty(10, 6));
    t.run_frame(screen(12, 8)).unwrap();
    assert_eq!(t.get_position(inner), Some(Position { x: 4, y: 2 }));
}

/// The border decorator paints its outline and insets its child.
#[test]
fn border_paints_outline() {
    let mut t = Tui::new();
    let root = t.create_node().unwrap();
    let boxed = t.create_node().unwrap();
    t.set_parent(boxed, root).unwrap();
    t.set_position(boxed, Position { x: 0, y: 0 });
    t.set_border(boxed, Border::new().top().left());
    let content = t.create_node().unwrap();
    t.set_parent(content, boxed).unwrap();
    t.set_position(content, Position { x: 2, y: 1 });
    t.set_text_block(boxed, TextBlock::empty(4, 3));
    t.run_frame(screen(6, 4)).unwrap();
    let tb = t.get_text_block(boxed).unwrap();
    assert_eq!(tb.rows[0], chars("+---"));
    assert_eq!(tb.rows[1], chars("|   "));
    assert_eq!(tb.rows[2], chars("|   "));
    // the child was shrunk to the content area right of its offset
    assert_eq!(block_size(&t, content), (2, 2));
}

#[test]
fn cycle_is_refused() {
    let mut t = Tui::new();
    let a = t.create_node().unwrap();
    let b = t.create_node().unwrap();
    t.set_parent(a, b).unwrap();
    assert_eq!(t.set_parent(b, a), Err(TuiError::HierarchyCycle { node: b.index }));
    assert_eq!(t.set_parent(a, a), Err(TuiError::HierarchyCycle { node: a.index }));
    // a grandchild cannot adopt its grandparent either
    let c = t.create_node().unwrap();
    t.set_parent(c, a).unwrap();
    assert_eq!(t.set_parent(b, c), Err(TuiError::HierarchyCycle { node: b.index }));
}

#[test]
fn nested_context_without_block_is_fatal() {
    let mut t = Tui::new();
    let root = t.create_node().unwrap();
    let ctx = t.create_node().unwrap();
    t.set_parent(ctx, root).unwrap();
    t.set_stacking_context(ctx, StackingContext::horizontal());
    let v = t.create_node().unwrap();
    t.set_parent(v, ctx).unwrap();
    t.set_visible(v, true);
    let r = t.run_frame(screen(10, 4));
    assert_eq!(r.unwrap_err(), TuiError::StackingWithoutTextBlock { node: ctx.index });
}

#[test]
fn centered_without_block_is_fatal() {
    let mut t = Tui::new();
    let root = t.create_node().unwrap();
    let parent = t.create_node().unwrap();
    t.set_parent(parent, root).unwrap();
    let child = t.create_node().unwrap();
    t.set_parent(child, parent).unwrap();
    t.set_centered(child, Centered::new(true, false));
    t.set_text_block(parent, TextBlock::empty(8, 2));
    let r = t.run_frame(screen(10, 4));
    assert_eq!(r.unwrap_err(), TuiError::CenteredWithoutTextBlock { node: child.index });
}

#[test]
fn border_child_without_position_is_fatal() {
    let mut t = Tui::new();
    let root = t.create_node().unwrap();
    let boxed = t.create_node().unwrap();
    t.set_parent(boxed, root).unwrap();
    t.set_border(boxed, Border::new().left());
    let content = t.create_node().unwrap();
    t.set_parent(content, boxed).unwrap();
    t.set_text_block(boxed, TextBlock::empty(4, 3));
    let r = t.run_frame(screen(6, 4));
    assert_eq!(r.unwrap_err(), TuiError::BorderChildWithoutPosition { node: content.index });
}

#[test]
fn degenerate_border_is_fatal() {
    let mut t = Tui::new();
    let root = t.create_node().unwrap();
    let boxed = t.create_node().unwrap();
    t.set_parent(boxed, root).unwrap();
    t.set_border(boxed, Border::new().top());
    t.set_text_block(boxed, TextBlock::empty(0, 0));
    let r = t.run_frame(screen(6, 4));
    assert_eq!(r.unwrap_err(), TuiError::DegenerateBorder { node: boxed.index });
}

/// Geometry that leaves the screen is a defined outcome, not a fault: the
/// painted cells are clipped to the screen rectangle.
#[test]
fn off_screen_block_is_clipped() {
    let mut t = Tui::new();
    let root = t.create_node().unwrap();
    let leaf = t.create_node().unwrap();
    t.set_parent(leaf, root).unwrap();
    t.set_position(leaf, Position { x: 8, y: 0 });
    t.set_text_block(leaf, TextBlock::new(vec![chars("wide")], 4, 1));
    let ops = t.run_frame(screen(10, 2)).unwrap();
    let puts: Vec<TermOp> = ops
        .iter()
        .copied()
        .filter(|op| matches!(op, TermOp::Put { .. }))
        .collect();
    assert_eq!(
        puts,
        vec![
            TermOp::Put { row: 0, col: 8, ch: 'w' },
            TermOp::Put { row: 0, col: 9, ch: 'i' },
        ]
    );
    // a block hanging off the left edge shows only its tail
    t.set_position(leaf, Position { x: -2, y: 1 });
    let ops2 = t.run_frame(screen(10, 2)).unwrap();
    let mut saw = Vec::new();
    for op in ops2 {
        if let TermOp::Put { row, col, ch } = op {
            if ch != ' ' {
                saw.push((row, col, ch));
            }
        }
    }
    assert!(saw.contains(&(1, 0, 'd')));
    assert!(saw.contains(&(1, 1, 'e')));
    assert!(saw.iter().all(|&(_, col, _)| col < 10));
}

/// An invisible child consumes no space in the distribution.
#[test]
fn invisible_child_excluded_from_flex() {
    let mut t = Tui::new();
    let root = t.create_node().unwrap();
    t.set_stacking_context(root, StackingContext::horizontal());
    let a = t.create_node().unwrap();
    t.set_stacking_rule(a, StackingRule::new());
    t.set_parent(a, root).unwrap();
    let b = t.create_node().unwrap();
    t.set_stacking_rule(b, StackingRule::new());
    t.set_parent(b, root).unwrap();
    t.set_visible(b, false);
    t.run_frame(screen(50, 2)).unwrap();
    assert_eq!(block_size(&t, a).0, 50);
}

/// Deleting a node frees its slot under a fresh generation, so old handles
/// go stale, and orphans its children.
#[test]
fn delete_orphans_and_stales() {
    let mut t = Tui::new();
    let parent = t.create_node().unwrap();
    let child = t.create_node().unwrap();
    t.set_parent(child, parent).unwrap();
    assert!(t.is_alive(parent));
    t.delete_node(parent);
    assert!(!t.is_alive(parent));
    assert!(t.is_alive(child));
    assert_eq!(t.get_parent(child), None);
    let reused = t.create_node().unwrap();
    assert_eq!(reused.index, parent.index);
    assert_ne!(reused.generation, parent.generation);
    assert!(!t.is_alive(parent));
    assert!(t.is_alive(reused));
}

/// The first frame after start-up clears the screen row by row.
#[test]
fn first_frame_blanks_rows() {
    let mut t = Tui::new();
    let ops = t.run_frame(screen(3, 2)).unwrap();
    assert_eq!(
        ops,
        vec![
            TermOp::BlankRow { row: 0, width: 3 },
            TermOp::BlankRow { row: 1, width: 3 },
        ]
    );
}
