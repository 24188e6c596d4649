//! The rendering core's facade: the scene store, one change journal per
//! journalled attribute type, the hierarchy journal, the normalizer's
//! snapshot, and the retained frame buffer. Game logic writes attributes
//! through the methods here; `run_frame` runs the whole pipeline once.
use vstd::prelude::*;
use crate::components::{
    Border, Centered, Position, ScreenSize, StackingContext, StackingRule, TextBlock,
    MAX_EXTENT, MAX_FLEX, MAX_NODES, MAX_RULE_BOUND, MAX_SCREEN,
};
use crate::events::{blank_status, HierarchyEvent, TermOp, TuiError, TuiEvent, TuiStatus};
use crate::journal::{ChangeKind, EventChannel};
use crate::scene::{children_of, resized_tb, Entity, Scene, SceneView, subtree_of};

verus! {

/// The journal cursor owned by the event normalizer, in every log.
pub const NORMALIZER_READER: usize = 0;

/// The journal cursor owned by the border decorator, in the text block log.
pub const BORDER_READER: usize = 1;

pub struct Tui {
    pub scene: Scene,
    pub position_log: EventChannel<(ChangeKind, u32)>,
    pub text_block_log: EventChannel<(ChangeKind, u32)>,
    pub visible_log: EventChannel<(ChangeKind, u32)>,
    pub zlevel_log: EventChannel<(ChangeKind, u32)>,
    pub global_log: EventChannel<(ChangeKind, u32)>,
    pub hierarchy_log: EventChannel<HierarchyEvent>,
    pub snap: Vec<TuiStatus>,
    pub snap_rows: Vec<Option<Vec<Vec<char>>>>,
    pub last_screen: ScreenSize,
    pub backplane: Vec<Vec<char>>,
}

/// The retained frame matches the given screen size.
pub open spec fn bp_matches(t: Tui, screen: ScreenSize) -> bool {
    &&& t.backplane@.len() == screen.height
    &&& forall|y: int|
        0 <= y < t.backplane@.len() ==> (#[trigger] t.backplane@[y])@.len() == screen.width
}

/// The buffer a frame's terminal writes are diffed against: the retained
/// frame from the previous frame, or a blank grid when the screen size
/// changed or the retained frame does not match it.
pub open spec fn frame_base(t: Tui, screen: ScreenSize) -> Seq<Seq<char>> {
    if screen != t.last_screen || !bp_matches(t, screen) {
        crate::render::blank_grid(screen.width as int, screen.height as int)
    } else {
        crate::render::bp_view(t.backplane@)
    }
}

impl Tui {
    pub open spec fn wf(self) -> bool {
        &&& self.scene.wf()
        &&& self.position_log.wf() && self.position_log.cursors().len() == 1
        &&& self.text_block_log.wf() && self.text_block_log.cursors().len() == 2
        &&& self.visible_log.wf() && self.visible_log.cursors().len() == 1
        &&& self.zlevel_log.wf() && self.zlevel_log.cursors().len() == 1
        &&& self.global_log.wf() && self.global_log.cursors().len() == 1
        &&& self.hierarchy_log.wf() && self.hierarchy_log.cursors().len() == 1
        &&& self.snap@.len() == self.scene.n()
        &&& self.snap_rows@.len() == self.scene.n()
        &&& 0 <= self.last_screen.width <= MAX_SCREEN
        &&& 0 <= self.last_screen.height <= MAX_SCREEN
        &&& forall|y: int|
            0 <= y < self.backplane@.len() ==> (#[trigger] self.backplane@[y])@.len()
                == self.backplane@[0]@.len()
    }

    /// The retained frame buffer matches the screen size of the last frame:
    /// true between frames, re-established by the renderer after a resize.
    pub open spec fn backplane_ok(self) -> bool {
        &&& self.backplane@.len() == self.last_screen.height
        &&& forall|y: int|
            0 <= y < self.backplane@.len() ==> (#[trigger] self.backplane@[y])@.len()
                == self.last_screen.width
    }

    /// The handle names a live node.
    pub open spec fn valid(self, e: Entity) -> bool {
        self.scene.valid(e)
    }

    pub fn new() -> (r: Self)
        ensures
            r.wf(),
            r.backplane_ok(),
            r.scene.n() == 0,
            r.position_log.log().len() == 0,
            r.text_block_log.log().len() == 0,
            r.visible_log.log().len() == 0,
            r.zlevel_log.log().len() == 0,
            r.global_log.log().len() == 0,
            r.hierarchy_log.log().len() == 0,
            r.last_screen == (ScreenSize { width: 0, height: 0 }),
    {
        let mut position_log = EventChannel::<(ChangeKind, u32)>::new();
        position_log.register_reader();
        let mut text_block_log = EventChannel::<(ChangeKind, u32)>::new();
        text_block_log.register_reader();
        text_block_log.register_reader();
        let mut visible_log = EventChannel::<(ChangeKind, u32)>::new();
        visible_log.register_reader();
        let mut zlevel_log = EventChannel::<(ChangeKind, u32)>::new();
        zlevel_log.register_reader();
        let mut global_log = EventChannel::<(ChangeKind, u32)>::new();
        global_log.register_reader();
        let mut hierarchy_log = EventChannel::<HierarchyEvent>::new();
        hierarchy_log.register_reader();
        Tui {
            scene: Scene::new(),
            position_log,
            text_block_log,
            visible_log,
            zlevel_log,
            global_log,
            hierarchy_log,
            snap: Vec::new(),
            snap_rows: Vec::new(),
            last_screen: ScreenSize { width: 0, height: 0 },
            backplane: Vec::new(),
        }
    }

    pub fn node_count(&self) -> (r: usize)
        ensures
            r == self.scene.n(),
    {
        self.scene.node_count()
    }

    pub fn is_alive(&self, e: Entity) -> (r: bool)
        requires
            self.wf(),
        ensures
            r == self.valid(e),
    {
        self.scene.is_alive(e)
    }

    /// Makes a new node with no attributes and no parent. Returns `None`
    /// exactly when the arena is full of live nodes.
    pub fn create_node(&mut self) -> (r: Option<Entity>)
        requires
            old(self).wf(),
        ensures
            final(self).wf(),
            final(self).position_log == old(self).position_log,
            final(self).text_block_log == old(self).text_block_log,
            final(self).visible_log == old(self).visible_log,
            final(self).zlevel_log == old(self).zlevel_log,
            final(self).global_log == old(self).global_log,
            final(self).hierarchy_log == old(self).hierarchy_log,
            final(self).last_screen == old(self).last_screen,
            final(self).backplane == old(self).backplane,
            (r is None) == (old(self).scene.n() == MAX_NODES && (forall|i: int|
                0 <= i < old(self).scene.n() ==> old(self).scene@.alive[i])),
            r is None ==> final(self).scene == old(self).scene && final(self).snap
                == old(self).snap,
            r matches Some(e) ==> final(self).valid(e) && final(self).scene.slot_clean(
                e.index as int,
            ) && final(self).snap@[e.index as int] == blank_status() && final(self).snap_rows@[e.index as int] is None
                && old(self).scene.n() <= final(self).scene.n() <= old(self).scene.n() + 1 && (
            forall|i: int|
                0 <= i < old(self).scene.n() && i != e.index as int ==> final(self).snap@[i]
                    == old(self).snap@[i]) && final(self).scene@.order == old(self).scene@.order
                && (forall|i: int|
                0 <= i < old(self).scene.n() && i != e.index as int
                    ==> final(self).scene@.parent[i] == old(self).scene@.parent[i] && final(self).scene@.position[i] == old(self).scene@.position[i] && final(self).scene@.text_block[i] == old(self).scene@.text_block[i] && final(self).scene@.visible[i] == old(self).scene@.visible[i] && final(self).scene@.zlevel[i]
                    == old(self).scene@.zlevel[i] && final(self).scene@.stacking_context[i] == old(self).scene@.stacking_context[i] && final(self).scene@.stacking_rule[i] == old(self).scene@.stacking_rule[i] && final(self).scene@.centered[i] == old(self).scene@.centered[i] && final(self).scene@.border[i] == old(self).scene@.border[i]
                    && final(self).scene@.visible_if_child[i] == old(self).scene@.visible_if_child[i]
                    && final(self).scene@.global_position[i] == old(self).scene@.global_position[i]),
    {
        let r = self.scene.create_node();
        match r {
            Some(e) => {
                if (e.index as usize) < self.snap.len() {
                    self.snap[e.index as usize] = TuiStatus::blank();
                } else {
                    self.snap.push(TuiStatus::blank());
                }
                if (e.index as usize) < self.snap_rows.len() {
                    self.snap_rows[e.index as usize] = None;
                } else {
                    self.snap_rows.push(None);
                }
                Some(e)
            },
            None => None,
        }
    }

    /// Attaches or overwrites the `position` attribute of a live node and
    /// journals the change.
    pub fn set_position(&mut self, e: Entity, v: Position)
        requires
            old(self).wf(),
            old(self).valid(e),
            -MAX_EXTENT <= v.x <= MAX_EXTENT,
            -MAX_EXTENT <= v.y <= MAX_EXTENT,
        ensures
            final(self).wf(),
            final(self).scene@ == (SceneView {
                position: old(self).scene@.position.update(e.index as int, Some(v)),
                ..old(self).scene@
            }),
            final(self).position_log.log() =~= old(self).position_log.log().push(
                (
                    if old(self).scene@.position[e.index as int] is Some {
                        ChangeKind::Modified
                    } else {
                        ChangeKind::Inserted
                    },
                    e.index,
                ),
            ),
            final(self).position_log.cursors() == old(self).position_log.cursors(),
            final(self).text_block_log == old(self).text_block_log,
            final(self).visible_log == old(self).visible_log,
            final(self).zlevel_log == old(self).zlevel_log,
            final(self).global_log == old(self).global_log,
            final(self).hierarchy_log == old(self).hierarchy_log,
            final(self).snap == old(self).snap,
            final(self).snap_rows == old(self).snap_rows,
            final(self).last_screen == old(self).last_screen,
            final(self).backplane == old(self).backplane,
    {
        let was = self.scene.set_position(e.index, v);
        let kind = if was {
            ChangeKind::Modified
        } else {
            ChangeKind::Inserted
        };
        self.position_log.record((kind, e.index));
    }

    /// Attaches or overwrites the `text_block` attribute of a live node and
    /// journals the change.
    pub fn set_text_block(&mut self, e: Entity, v: TextBlock)
        requires
            old(self).wf(),
            old(self).valid(e),
            -MAX_EXTENT <= v@.width <= MAX_EXTENT,
            -MAX_EXTENT <= v@.height <= MAX_EXTENT,
        ensures
            final(self).wf(),
            final(self).scene@ == (SceneView {
                text_block: old(self).scene@.text_block.update(e.index as int, Some(v@)),
                ..old(self).scene@
            }),
            final(self).text_block_log.log() =~= old(self).text_block_log.log().push(
                (
                    if old(self).scene@.text_block[e.index as int] is Some {
                        ChangeKind::Modified
                    } else {
                        ChangeKind::Inserted
                    },
                    e.index,
                ),
            ),
            final(self).text_block_log.cursors() == old(self).text_block_log.cursors(),
            final(self).position_log == old(self).position_log,
            final(self).visible_log == old(self).visible_log,
            final(self).zlevel_log == old(self).zlevel_log,
            final(self).global_log == old(self).global_log,
            final(self).hierarchy_log == old(self).hierarchy_log,
            final(self).snap == old(self).snap,
            final(self).snap_rows == old(self).snap_rows,
            final(self).last_screen == old(self).last_screen,
            final(self).backplane == old(self).backplane,
    {
        let was = self.scene.set_text_block(e.index, v);
        let kind = if was {
            ChangeKind::Modified
        } else {
            ChangeKind::Inserted
        };
        self.text_block_log.record((kind, e.index));
    }

    /// Attaches or overwrites the `visible` attribute of a live node and
    /// journals the change.
    pub fn set_visible(&mut self, e: Entity, v: bool)
        requires
            old(self).wf(),
            old(self).valid(e),
        ensures
            final(self).wf(),
            final(self).scene@ == (SceneView {
                visible: old(self).scene@.visible.update(e.index as int, Some(v)),
                ..old(self).scene@
            }),
            final(self).visible_log.log() =~= old(self).visible_log.log().push(
                (
                    if old(self).scene@.visible[e.index as int] is Some {
                        ChangeKind::Modified
                    } else {
                        ChangeKind::Inserted
                    },
                    e.index,
                ),
            ),
            final(self).visible_log.cursors() == old(self).visible_log.cursors(),
            final(self).position_log == old(self).position_log,
            final(self).text_block_log == old(self).text_block_log,
            final(self).zlevel_log == old(self).zlevel_log,
            final(self).global_log == old(self).global_log,
            final(self).hierarchy_log == old(self).hierarchy_log,
            final(self).snap == old(self).snap,
            final(self).snap_rows == old(self).snap_rows,
            final(self).last_screen == old(self).last_screen,
            final(self).backplane == old(self).backplane,
    {
        let was = self.scene.set_visible(e.index, v);
        let kind = if was {
            ChangeKind::Modified
        } else {
            ChangeKind::Inserted
        };
        self.visible_log.record((kind, e.index));
    }

    /// Attaches or overwrites the `zlevel` attribute of a live node and
    /// journals the change.
    pub fn set_zlevel(&mut self, e: Entity, v: i64)
        requires
            old(self).wf(),
            old(self).valid(e),
        ensures
            final(self).wf(),
            final(self).scene@ == (SceneView {
                zlevel: old(self).scene@.zlevel.update(e.index as int, Some(v)),
                ..old(self).scene@
            }),
            final(self).zlevel_log.log() =~= old(self).zlevel_log.log().push(
                (
                    if old(self).scene@.zlevel[e.index as int] is Some {
                        ChangeKind::Modified
                    } else {
                        ChangeKind::Inserted
                    },
                    e.index,
                ),
            ),
            final(self).zlevel_log.cursors() == old(self).zlevel_log.cursors(),
            final(self).position_log == old(self).position_log,
            final(self).text_block_log == old(self).text_block_log,
            final(self).visible_log == old(self).visible_log,
            final(self).global_log == old(self).global_log,
            final(self).hierarchy_log == old(self).hierarchy_log,
            final(self).snap == old(self).snap,
            final(self).snap_rows == old(self).snap_rows,
            final(self).last_screen == old(self).last_screen,
            final(self).backplane == old(self).backplane,
    {
        let was = self.scene.set_zlevel(e.index, v);
        let kind = if was {
            ChangeKind::Modified
        } else {
            ChangeKind::Inserted
        };
        self.zlevel_log.record((kind, e.index));
    }

    /// Detaches the `position` attribute of a live node, journalling the
    /// removal if one was present.
    pub fn remove_position(&mut self, e: Entity)
        requires
            old(self).wf(),
            old(self).valid(e),
        ensures
            final(self).wf(),
            final(self).scene@ == (SceneView {
                position: old(self).scene@.position.update(e.index as int, None),
                ..old(self).scene@
            }),
            final(self).position_log.log() =~= if old(self).scene@.position[e.index as int] is Some {
                old(self).position_log.log().push((ChangeKind::Removed, e.index))
            } else {
                old(self).position_log.log()
            },
            final(self).position_log.cursors() == old(self).position_log.cursors(),
            final(self).text_block_log == old(self).text_block_log,
            final(self).visible_log == old(self).visible_log,
            final(self).zlevel_log == old(self).zlevel_log,
            final(self).global_log == old(self).global_log,
            final(self).hierarchy_log == old(self).hierarchy_log,
            final(self).snap == old(self).snap,
            final(self).snap_rows == old(self).snap_rows,
            final(self).last_screen == old(self).last_screen,
            final(self).backplane == old(self).backplane,
    {
        let was = self.scene.remove_position(e.index);
        if was {
            self.position_log.record((ChangeKind::Removed, e.index));
        }
    }

    /// Detaches the `text_block` attribute of a live node, journalling the
    /// removal if one was present.
    pub fn remove_text_block(&mut self, e: Entity)
        requires
            old(self).wf(),
            old(self).valid(e),
        ensures
            final(self).wf(),
            final(self).scene@ == (SceneView {
                text_block: old(self).scene@.text_block.update(e.index as int, None),
                ..old(self).scene@
            }),
            final(self).text_block_log.log() =~= if old(self).scene@.text_block[e.index as int] is Some {
                old(self).text_block_log.log().push((ChangeKind::Removed, e.index))
            } else {
                old(self).text_block_log.log()
            },
            final(self).text_block_log.cursors() == old(self).text_block_log.cursors(),
            final(self).position_log == old(self).position_log,
            final(self).visible_log == old(self).visible_log,
            final(self).zlevel_log == old(self).zlevel_log,
            final(self).global_log == old(self).global_log,
            final(self).hierarchy_log == old(self).hierarchy_log,
            final(self).snap == old(self).snap,
            final(self).snap_rows == old(self).snap_rows,
            final(self).last_screen == old(self).last_screen,
            final(self).backplane == old(self).backplane,
    {
        let was = self.scene.remove_text_block(e.index);
        if was {
            self.text_block_log.record((ChangeKind::Removed, e.index));
        }
    }

    /// Detaches the `visible` attribute of a live node, journalling the
    /// removal if one was present.
    pub fn remove_visible(&mut self, e: Entity)
        requires
            old(self).wf(),
            old(self).valid(e),
        ensures
            final(self).wf(),
            final(self).scene@ == (SceneView {
                visible: old(self).scene@.visible.update(e.index as int, None),
                ..old(self).scene@
            }),
            final(self).visible_log.log() =~= if old(self).scene@.visible[e.index as int] is Some {
                old(self).visible_log.log().push((ChangeKind::Removed, e.index))
            } else {
                old(self).visible_log.log()
            },
            final(self).visible_log.cursors() == old(self).visible_log.cursors(),
            final(self).position_log == old(self).position_log,
            final(self).text_block_log == old(self).text_block_log,
            final(self).zlevel_log == old(self).zlevel_log,
            final(self).global_log == old(self).global_log,
            final(self).hierarchy_log == old(self).hierarchy_log,
            final(self).snap == old(self).snap,
            final(self).snap_rows == old(self).snap_rows,
            final(self).last_screen == old(self).last_screen,
            final(self).backplane == old(self).backplane,
    {
        let was = self.scene.remove_visible(e.index);
        if was {
            self.visible_log.record((ChangeKind::Removed, e.index));
        }
    }

    /// Detaches the `zlevel` attribute of a live node, journalling the
    /// removal if one was present.
    pub fn remove_zlevel(&mut self, e: Entity)
        requires
            old(self).wf(),
            old(self).valid(e),
        ensures
            final(self).wf(),
            final(self).scene@ == (SceneView {
                zlevel: old(self).scene@.zlevel.update(e.index as int, None),
                ..old(self).scene@
            }),
            final(self).zlevel_log.log() =~= if old(self).scene@.zlevel[e.index as int] is Some {
                old(self).zlevel_log.log().push((ChangeKind::Removed, e.index))
            } else {
                old(self).zlevel_log.log()
            },
            final(self).zlevel_log.cursors() == old(self).zlevel_log.cursors(),
            final(self).position_log == old(self).position_log,
            final(self).text_block_log == old(self).text_block_log,
            final(self).visible_log == old(self).visible_log,
            final(self).global_log == old(self).global_log,
            final(self).hierarchy_log == old(self).hierarchy_log,
            final(self).snap == old(self).snap,
            final(self).snap_rows == old(self).snap_rows,
            final(self).last_screen == old(self).last_screen,
            final(self).backplane == old(self).backplane,
    {
        let was = self.scene.remove_zlevel(e.index);
        if was {
            self.zlevel_log.record((ChangeKind::Removed, e.index));
        }
    }

    /// Attaches or overwrites the `stacking_context` attribute of a live node; layout
    /// participation attributes are not journalled.
    pub fn set_stacking_context(&mut self, e: Entity, v: StackingContext)
        requires
            old(self).wf(),
            old(self).valid(e),
        ensures
            final(self).wf(),
            final(self).scene@ == (SceneView {
                stacking_context: old(self).scene@.stacking_context.update(e.index as int, Some(v)),
                ..old(self).scene@
            }),
            final(self).position_log == old(self).position_log,
            final(self).text_block_log == old(self).text_block_log,
            final(self).visible_log == old(self).visible_log,
            final(self).zlevel_log == old(self).zlevel_log,
            final(self).global_log == old(self).global_log,
            final(self).hierarchy_log == old(self).hierarchy_log,
            final(self).snap == old(self).snap,
            final(self).snap_rows == old(self).snap_rows,
            final(self).last_screen == old(self).last_screen,
            final(self).backplane == old(self).backplane,
    {
        self.scene.set_stacking_context(e.index, v);
    }

    /// Attaches or overwrites the `stacking_rule` attribute of a live node; layout
    /// participation attributes are not journalled.
    pub fn set_stacking_rule(&mut self, e: Entity, v: StackingRule)
        requires
            old(self).wf(),
            old(self).valid(e),
            (v.min_width matches Some(m) ==> -MAX_RULE_BOUND <= m <= MAX_RULE_BOUND),
            (v.max_width matches Some(m) ==> -MAX_RULE_BOUND <= m <= MAX_RULE_BOUND),
            (v.min_height matches Some(m) ==> -MAX_RULE_BOUND <= m <= MAX_RULE_BOUND),
            (v.max_height matches Some(m) ==> -MAX_RULE_BOUND <= m <= MAX_RULE_BOUND),
            v.flex <= MAX_FLEX,
        ensures
            final(self).wf(),
            final(self).scene@ == (SceneView {
                stacking_rule: old(self).scene@.stacking_rule.update(e.index as int, Some(v)),
                ..old(self).scene@
            }),
            final(self).position_log == old(self).position_log,
            final(self).text_block_log == old(self).text_block_log,
            final(self).visible_log == old(self).visible_log,
            final(self).zlevel_log == old(self).zlevel_log,
            final(self).global_log == old(self).global_log,
            final(self).hierarchy_log == old(self).hierarchy_log,
            final(self).snap == old(self).snap,
            final(self).snap_rows == old(self).snap_rows,
            final(self).last_screen == old(self).last_screen,
            final(self).backplane == old(self).backplane,
    {
        self.scene.set_stacking_rule(e.index, v);
    }

    /// Attaches or overwrites the `centered` attribute of a live node; layout
    /// participation attributes are not journalled.
    pub fn set_centered(&mut self, e: Entity, v: Centered)
        requires
            old(self).wf(),
            old(self).valid(e),
        ensures
            final(self).wf(),
            final(self).scene@ == (SceneView {
                centered: old(self).scene@.centered.update(e.index as int, Some(v)),
                ..old(self).scene@
            }),
            final(self).position_log == old(self).position_log,
            final(self).text_block_log == old(self).text_block_log,
            final(self).visible_log == old(self).visible_log,
            final(self).zlevel_log == old(self).zlevel_log,
            final(self).global_log == old(self).global_log,
            final(self).hierarchy_log == old(self).hierarchy_log,
            final(self).snap == old(self).snap,
            final(self).snap_rows == old(self).snap_rows,
            final(self).last_screen == old(self).last_screen,
            final(self).backplane == old(self).backplane,
    {
        self.scene.set_centered(e.index, v);
    }

    /// Attaches or overwrites the `border` attribute of a live node; layout
    /// participation attributes are not journalled.
    pub fn set_border(&mut self, e: Entity, v: Border)
        requires
            old(self).wf(),
            old(self).valid(e),
        ensures
            final(self).wf(),
            final(self).scene@ == (SceneView {
                border: old(self).scene@.border.update(e.index as int, Some(v)),
                ..old(self).scene@
            }),
            final(self).position_log == old(self).position_log,
            final(self).text_block_log == old(self).text_block_log,
            final(self).visible_log == old(self).visible_log,
            final(self).zlevel_log == old(self).zlevel_log,
            final(self).global_log == old(self).global_log,
            final(self).hierarchy_log == old(self).hierarchy_log,
            final(self).snap == old(self).snap,
            final(self).snap_rows == old(self).snap_rows,
            final(self).last_screen == old(self).last_screen,
            final(self).backplane == old(self).backplane,
    {
        self.scene.set_border(e.index, v);
    }

    /// Marks or unmarks a live node as deriving its visibility from its
    /// children.
    pub fn set_visible_if_child(&mut self, e: Entity, v: bool)
        requires
            old(self).wf(),
            old(self).valid(e),
        ensures
            final(self).wf(),
            final(self).scene@ == (SceneView {
                visible_if_child: old(self).scene@.visible_if_child.update(e.index as int, v),
                ..old(self).scene@
            }),
            final(self).position_log == old(self).position_log,
            final(self).text_block_log == old(self).text_block_log,
            final(self).visible_log == old(self).visible_log,
            final(self).zlevel_log == old(self).zlevel_log,
            final(self).global_log == old(self).global_log,
            final(self).hierarchy_log == old(self).hierarchy_log,
            final(self).snap == old(self).snap,
            final(self).snap_rows == old(self).snap_rows,
            final(self).last_screen == old(self).last_screen,
            final(self).backplane == old(self).backplane,
    {
        self.scene.set_visible_if_child(e.index, v);
    }

    /// Makes `parent` the parent of `child`, journalling the structural
    /// change. Refused exactly when the edge would make `child` its own
    /// ancestor.
    pub fn set_parent(&mut self, child: Entity, parent: Entity) -> (r: Result<(), TuiError>)
        requires
            old(self).wf(),
            old(self).valid(child),
            old(self).valid(parent),
        ensures
            final(self).wf(),
            (r is Err) == (parent.index == child.index || subtree_of(
                old(self).scene@.parent,
                old(self).scene@.order,
                child.index,
            ).contains(parent.index)),
            r matches Err(err) ==> err == (TuiError::HierarchyCycle { node: child.index })
                && *final(self) == *old(self),
            r is Ok ==> final(self).scene@.parent =~= old(self).scene@.parent.update(
                child.index as int,
                Some(parent.index),
            ) && final(self).scene@ == (SceneView {
                parent: final(self).scene@.parent,
                order: final(self).scene@.order,
                ..old(self).scene@
            }) && final(self).hierarchy_log.log() =~= old(self).hierarchy_log.log().push(
                HierarchyEvent::Modified(child.index),
            ) && final(self).hierarchy_log.cursors() == old(self).hierarchy_log.cursors(),
            r is Ok ==> final(self).position_log == old(self).position_log,
            final(self).text_block_log == old(self).text_block_log,
            final(self).visible_log == old(self).visible_log,
            final(self).zlevel_log == old(self).zlevel_log,
            final(self).global_log == old(self).global_log,
            r is Ok ==> final(self).snap == old(self).snap && final(self).last_screen == old(
                self).last_screen && final(self).backplane == old(self).backplane,
    {
        match self.scene.set_parent(child.index, parent.index) {
            Ok(()) => {
                self.hierarchy_log.record(HierarchyEvent::Modified(child.index));
                Ok(())
            },
            Err(err) => Err(err),
        }
    }

    /// Detaches a live node from its parent, journalling the structural
    /// change if it had one.
    pub fn clear_parent(&mut self, e: Entity)
        requires
            old(self).wf(),
            old(self).valid(e),
        ensures
            final(self).wf(),
            final(self).scene@.parent =~= old(self).scene@.parent.update(e.index as int, None),
            final(self).scene@ == (SceneView {
                parent: final(self).scene@.parent,
                order: final(self).scene@.order,
                ..old(self).scene@
            }),
            final(self).hierarchy_log.log() =~= if old(self).scene@.parent[e.index as int] is Some {
                old(self).hierarchy_log.log().push(HierarchyEvent::Modified(e.index))
            } else {
                old(self).hierarchy_log.log()
            },
            final(self).hierarchy_log.cursors() == old(self).hierarchy_log.cursors(),
            final(self).position_log == old(self).position_log,
            final(self).text_block_log == old(self).text_block_log,
            final(self).visible_log == old(self).visible_log,
            final(self).zlevel_log == old(self).zlevel_log,
            final(self).global_log == old(self).global_log,
            final(self).snap == old(self).snap,
            final(self).snap_rows == old(self).snap_rows,
            final(self).last_screen == old(self).last_screen,
            final(self).backplane == old(self).backplane,
    {
        let was = self.scene.clear_parent(e.index);
        if was {
            self.hierarchy_log.record(HierarchyEvent::Modified(e.index));
        }
    }


    /// Removes a node from the scene: its children are orphaned (each with a
    /// journalled structural change), every journalled attribute it carried
    /// is journalled as removed, and the slot goes stale for old handles.
    pub fn delete_node(&mut self, e: Entity)
        requires
            old(self).wf(),
            old(self).valid(e),
        ensures
            final(self).wf(),
            final(self).scene.n() == old(self).scene.n(),
            final(self).scene@.alive =~= old(self).scene@.alive.update(e.index as int, false),
            final(self).scene.slot_clean(e.index as int),
            !final(self).valid(e),
            forall|j: int|
                0 <= j < old(self).scene.n() && j != e.index as int ==> final(self).scene@.parent[j]
                    == (if old(self).scene@.parent[j] == Some(e.index) {
                    None
                } else {
                    old(self).scene@.parent[j]
                }),
            forall|j: int|
                0 <= j < old(self).scene.n() && j != e.index as int
                    ==> final(self).scene@.position[j] == old(self).scene@.position[j] && final(self).scene@.text_block[j] == old(self).scene@.text_block[j] && final(self).scene@.visible[j] == old(self).scene@.visible[j] && final(self).scene@.zlevel[j]
                    == old(self).scene@.zlevel[j] && final(self).scene@.stacking_context[j] == old(self).scene@.stacking_context[j] && final(self).scene@.stacking_rule[j] == old(self).scene@.stacking_rule[j] && final(self).scene@.centered[j] == old(self).scene@.centered[j] && final(self).scene@.border[j] == old(self).scene@.border[j]
                    && final(self).scene@.visible_if_child[j] == old(self).scene@.visible_if_child[j] && final(self).scene@.global_position[j] == old(self).scene@.global_position[j] && final(self).snap@[j] == old(self).snap@[j],
            final(self).hierarchy_log.log() =~= old(self).hierarchy_log.log() + children_of(
                old(self).scene@.parent,
                e.index,
            ).map_values(|c: u32| HierarchyEvent::Modified(c)).push(
                HierarchyEvent::Removed(e.index),
            ),
            final(self).hierarchy_log.cursors() == old(self).hierarchy_log.cursors(),
            final(self).position_log.log() =~= if old(self).scene@.position[e.index as int]
                is Some {
                old(self).position_log.log().push((ChangeKind::Removed, e.index))
            } else {
                old(self).position_log.log()
            },
            final(self).text_block_log.log() =~= if old(self).scene@.text_block[e.index as int]
                is Some {
                old(self).text_block_log.log().push((ChangeKind::Removed, e.index))
            } else {
                old(self).text_block_log.log()
            },
            final(self).visible_log.log() =~= if old(self).scene@.visible[e.index as int]
                is Some {
                old(self).visible_log.log().push((ChangeKind::Removed, e.index))
            } else {
                old(self).visible_log.log()
            },
            final(self).zlevel_log.log() =~= if old(self).scene@.zlevel[e.index as int] is Some {
                old(self).zlevel_log.log().push((ChangeKind::Removed, e.index))
            } else {
                old(self).zlevel_log.log()
            },
            final(self).global_log.log() =~= if old(self).scene@.global_position[e.index as int]
                is Some {
                old(self).global_log.log().push((ChangeKind::Removed, e.index))
            } else {
                old(self).global_log.log()
            },
            final(self).position_log.cursors() == old(self).position_log.cursors(),
            final(self).text_block_log.cursors() == old(self).text_block_log.cursors(),
            final(self).visible_log.cursors() == old(self).visible_log.cursors(),
            final(self).zlevel_log.cursors() == old(self).zlevel_log.cursors(),
            final(self).global_log.cursors() == old(self).global_log.cursors(),
            final(self).snap@[e.index as int] == blank_status(),
            final(self).snap_rows@[e.index as int] is None,
            forall|j: int|
                0 <= j < old(self).scene.n() && j != e.index as int ==> final(self).snap_rows@[j]
                    == old(self).snap_rows@[j],
            final(self).last_screen == old(self).last_screen,
            final(self).backplane == old(self).backplane,
    {
        let idx = e.index;
        let had_pos = match self.scene.get_position(idx) {
            Some(_) => true,
            None => false,
        };
        let had_tb = match self.scene.get_text_block(idx) {
            Some(_) => true,
            None => false,
        };
        let had_vis = match self.scene.get_visible(idx) {
            Some(_) => true,
            None => false,
        };
        let had_z = match self.scene.get_zlevel(idx) {
            Some(_) => true,
            None => false,
        };
        let had_g = match self.scene.get_global_position(idx) {
            Some(_) => true,
            None => false,
        };
        let kids = self.scene.children_vec(idx);
        self.scene.delete_node(idx);
        let ghost mid = *self;
        let mut k: usize = 0;
        let ghost kidseq = children_of(old(self).scene@.parent, idx).map_values(
            |c: u32| HierarchyEvent::Modified(c),
        );
        #[verifier::loop_isolation(false)]
        while k < kids.len()
            invariant
                k <= kids@.len(),
                self.hierarchy_log.wf(),
                self.hierarchy_log.log() =~= old(self).hierarchy_log.log() + kidseq.subrange(
                    0,
                    k as int,
                ),
                self.hierarchy_log.cursors() == old(self).hierarchy_log.cursors(),
                self.scene == mid.scene,
                self.position_log == mid.position_log,
                self.text_block_log == mid.text_block_log,
                self.visible_log == mid.visible_log,
                self.zlevel_log == mid.zlevel_log,
                self.global_log == mid.global_log,
                self.snap == mid.snap,
                self.snap_rows == mid.snap_rows,
                self.last_screen == mid.last_screen,
                self.backplane == mid.backplane,
            decreases kids@.len() - k,
        {
            proof {
                assert(kidseq[k as int] == HierarchyEvent::Modified(kids@[k as int]));
            }
            self.hierarchy_log.record(HierarchyEvent::Modified(kids[k]));
            proof {
                assert(self.hierarchy_log.log() =~= old(self).hierarchy_log.log()
                    + kidseq.subrange(0, k + 1));
            }
            k += 1;
        }
        proof {
            assert(kidseq.subrange(0, kidseq.len() as int) =~= kidseq);
        }
        self.hierarchy_log.record(HierarchyEvent::Removed(idx));
        if had_pos {
            self.position_log.record((ChangeKind::Removed, idx));
        }
        if had_tb {
            self.text_block_log.record((ChangeKind::Removed, idx));
        }
        if had_vis {
            self.visible_log.record((ChangeKind::Removed, idx));
        }
        if had_z {
            self.zlevel_log.record((ChangeKind::Removed, idx));
        }
        if had_g {
            self.global_log.record((ChangeKind::Removed, idx));
        }
        self.snap[idx as usize] = TuiStatus::blank();
        self.snap_rows[idx as usize] = None;
    }


    /// Rewrites only the declared size of a node's text block (keeping its
    /// rows) and journals the change. Used by the layout passes.
    pub fn bump_text_block_size(&mut self, i: u32, w: i64, h: i64)
        requires
            old(self).wf(),
            i < old(self).scene.n(),
            old(self).scene@.alive[i as int],
            -MAX_EXTENT <= w <= MAX_EXTENT,
            -MAX_EXTENT <= h <= MAX_EXTENT,
        ensures
            final(self).wf(),
            final(self).scene@ == (SceneView {
                text_block: old(self).scene@.text_block.update(
                    i as int,
                    Some(resized_tb(old(self).scene@.text_block[i as int], w as int, h as int)),
                ),
                ..old(self).scene@
            }),
            final(self).text_block_log.log() =~= old(self).text_block_log.log().push(
                (
                    if old(self).scene@.text_block[i as int] is Some {
                        ChangeKind::Modified
                    } else {
                        ChangeKind::Inserted
                    },
                    i,
                ),
            ),
            final(self).text_block_log.cursors() == old(self).text_block_log.cursors(),
            final(self).position_log == old(self).position_log,
            final(self).visible_log == old(self).visible_log,
            final(self).zlevel_log == old(self).zlevel_log,
            final(self).global_log == old(self).global_log,
            final(self).hierarchy_log == old(self).hierarchy_log,
            final(self).snap == old(self).snap,
            final(self).snap_rows == old(self).snap_rows,
            final(self).last_screen == old(self).last_screen,
            final(self).backplane == old(self).backplane,
    {
        let was = self.scene.set_text_block_size(i, w, h);
        let kind = if was {
            ChangeKind::Modified
        } else {
            ChangeKind::Inserted
        };
        self.text_block_log.record((kind, i));
    }

    /// Overwrites a node's local position and journals the change. Used by
    /// the layout passes.
    pub fn bump_position(&mut self, i: u32, p: Position)
        requires
            old(self).wf(),
            i < old(self).scene.n(),
            old(self).scene@.alive[i as int],
            -MAX_EXTENT <= p.x <= MAX_EXTENT,
            -MAX_EXTENT <= p.y <= MAX_EXTENT,
        ensures
            final(self).wf(),
            final(self).scene@ == (SceneView {
                position: old(self).scene@.position.update(i as int, Some(p)),
                ..old(self).scene@
            }),
            final(self).position_log.log() =~= old(self).position_log.log().push(
                (
                    if old(self).scene@.position[i as int] is Some {
                        ChangeKind::Modified
                    } else {
                        ChangeKind::Inserted
                    },
                    i,
                ),
            ),
            final(self).position_log.cursors() == old(self).position_log.cursors(),
            final(self).text_block_log == old(self).text_block_log,
            final(self).visible_log == old(self).visible_log,
            final(self).zlevel_log == old(self).zlevel_log,
            final(self).global_log == old(self).global_log,
            final(self).hierarchy_log == old(self).hierarchy_log,
            final(self).snap == old(self).snap,
            final(self).snap_rows == old(self).snap_rows,
            final(self).last_screen == old(self).last_screen,
            final(self).backplane == old(self).backplane,
    {
        let was = self.scene.set_position(i, p);
        let kind = if was {
            ChangeKind::Modified
        } else {
            ChangeKind::Inserted
        };
        self.position_log.record((kind, i));
    }


    /// Runs the whole pipeline once for this frame: the normalizer turns
    /// journalled writes into deduplicated semantic events, then the
    /// visibility resolver, the stacking layout solver, the centering and
    /// border decorators, and finally the renderer run in order, and the
    /// terminal writes for this frame come back. When nothing changed since
    /// the previous frame, nothing is recomputed and no write is emitted.
    pub fn run_frame(&mut self, screen: ScreenSize) -> (r: Result<Vec<TermOp>, TuiError>)
        requires
            old(self).wf(),
            0 <= screen.width <= MAX_SCREEN,
            0 <= screen.height <= MAX_SCREEN,
        ensures
            final(self).wf(),
            r is Ok ==> final(self).backplane_ok(),
            final(self).last_screen == screen,
            r is Err ==> (r matches Err(TuiError::StackingWithoutTextBlock { .. }) || r matches Err(
                TuiError::ExtentOverflow { .. },
            ) || r matches Err(TuiError::CenteredWithoutTextBlock { .. }) || r matches Err(
                TuiError::DegenerateBorder { .. },
            ) || r matches Err(TuiError::BorderChildWithoutPosition { .. })),
            r matches Ok(ops) ==> ops@ =~= (if screen != old(self).last_screen {
                crate::render::blank_ops(screen.width as int, screen.height as int)
            } else {
                Seq::<TermOp>::empty()
            }) + crate::render::diff_ops(
                frame_base(*old(self), screen),
                crate::render::bp_view(final(self).backplane@),
                screen.width as int,
                screen.height as int,
            ),
            crate::normalize::quiescent(*old(self), screen) ==> (r matches Ok(ops) && ops@.len()
                == 0) && final(self).scene@ == old(self).scene@ && final(self).backplane@ == old(self).backplane@ && final(self).snap@ =~= old(self).snap@ && final(self).position_log.log()
                == old(self).position_log.log() && final(self).text_block_log.log() == old(self).text_block_log.log() && final(self).visible_log.log() == old(self).visible_log.log() && final(self).zlevel_log.log() == old(self).zlevel_log.log()
                && final(self).global_log.log() == old(self).global_log.log() && final(self).hierarchy_log.log() == old(self).hierarchy_log.log() && crate::normalize::quiescent(
                *final(self),
                screen,
            ),
    {
        let ghost at_entry = *self;
        let evs = self.run_normalize(screen);
        proof {
            assert forall|k: int| 0 <= k < evs@.len() implies (((#[trigger] evs@[k])
                matches TuiEvent::Visible { entity, .. } ==> entity < self.scene.n()) && (evs@[k]
                matches TuiEvent::TextBlock { entity, .. } ==> entity < self.scene.n())) by {
                assert(crate::normalize::event_sound(
                    at_entry.scene@,
                    at_entry.snap@,
                    at_entry.snap_rows@,
                    screen,
                    at_entry.last_screen,
                    evs@[k],
                ));
            }
        }
        self.run_visibility(&evs);
        match self.run_stacking(&evs) {
            Ok(()) => {},
            Err(e) => {
                return Err(e);
            },
        }
        match self.run_centering(&evs) {
            Ok(()) => {},
            Err(e) => {
                return Err(e);
            },
        }
        match self.run_border() {
            Ok(()) => {},
            Err(e) => {
                return Err(e);
            },
        }
        let ghost t_mid = *self;
        let ops = self.run_render(&evs);
        proof {
            assert(crate::render::has_resize_ev(evs@) == (screen != old(self).last_screen));
            assert(t_mid.backplane_ok() == bp_matches(*old(self), screen)) by {
                assert(t_mid.backplane == old(self).backplane);
                assert(t_mid.last_screen == screen);
            }
            assert(crate::render::render_base(t_mid, evs@) =~~= frame_base(*old(self), screen))
                by {
                assert(t_mid.backplane@ == old(self).backplane@);
            }
        }
        Ok(ops)
    }

    pub fn get_position(&self, e: Entity) -> (r: Option<Position>)
        requires
            self.wf(),
            self.valid(e),
        ensures
            r == self.scene@.position[e.index as int],
    {
        self.scene.get_position(e.index)
    }

    pub fn get_visible(&self, e: Entity) -> (r: Option<bool>)
        requires
            self.wf(),
            self.valid(e),
        ensures
            r == self.scene@.visible[e.index as int],
    {
        self.scene.get_visible(e.index)
    }

    pub fn get_zlevel(&self, e: Entity) -> (r: Option<i64>)
        requires
            self.wf(),
            self.valid(e),
        ensures
            r == self.scene@.zlevel[e.index as int],
    {
        self.scene.get_zlevel(e.index)
    }

    pub fn get_parent(&self, e: Entity) -> (r: Option<u32>)
        requires
            self.wf(),
            self.valid(e),
        ensures
            r == self.scene@.parent[e.index as int],
    {
        self.scene.get_parent(e.index)
    }

    /// The node's derived absolute position, if the renderer has computed
    /// one.
    pub fn global_position(&self, e: Entity) -> (r: Option<Position>)
        requires
            self.wf(),
            self.valid(e),
        ensures
            r == self.scene@.global_position[e.index as int],
    {
        self.scene.get_global_position(e.index)
    }

    /// Borrows the node's text block, if it has one.
    pub fn get_text_block(&self, e: Entity) -> (r: Option<&TextBlock>)
        requires
            self.wf(),
            self.valid(e),
        ensures
            match r {
                Some(t) => self.scene@.text_block[e.index as int] == Some(t@),
                None => self.scene@.text_block[e.index as int] is None,
            },
    {
        self.scene.get_text_block(e.index)
    }
}

} // verus!
