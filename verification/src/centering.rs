//! The centering decorator: a node marked `Centered` is re-positioned to
//! the middle of its parent, per enabled axis, whenever its own or its
//! parent's text block size changes: half the difference of the two
//! extents, by integer floor division.
use vstd::prelude::*;
use crate::components::{Position, MAX_EXTENT};
use crate::dirty::{bitset_add, bitset_contains, bitset_new, bits_of};
use crate::events::{TuiError, TuiEvent};
use crate::scene::SceneView;
use crate::stacking::floor_div;
use crate::tui::Tui;

verus! {

/// The nodes text block events name.
pub open spec fn tb_event_set(evs: Seq<TuiEvent>) -> Set<u32> {
    Set::new(
        |x: u32|
            exists|k: int|
                0 <= k < evs.len() && ((#[trigger] evs[k]) matches TuiEvent::TextBlock {
                    entity,
                    ..
                } && entity == x),
    )
}

/// A centered node whose own or whose parent's text block size changed
/// this frame.
pub open spec fn centered_dirty(v: SceneView, dirty: Set<u32>, e: int) -> bool {
    v.centered[e] is Some && v.parent[e] is Some && (dirty.contains(v.parent[e].unwrap())
        || dirty.contains(e as u32))
}

/// Where a centered node lands: half the difference of the parent's extent
/// and the node's own, by floor division, per enabled axis; a disabled axis
/// keeps the previous offset (or zero if the node had none).
pub open spec fn centered_pos(v: SceneView, e: int) -> Position {
    let c = v.centered[e].unwrap();
    let pt = v.text_block[v.parent[e].unwrap() as int].unwrap();
    let t = v.text_block[e].unwrap();
    let oldp = match v.position[e] {
        Some(p) => p,
        None => Position { x: 0, y: 0 },
    };
    Position {
        x: if c.horizontal {
            ((pt.width - t.width) / 2) as i64
        } else {
            oldp.x
        },
        y: if c.vertical {
            ((pt.height - t.height) / 2) as i64
        } else {
            oldp.y
        },
    }
}

impl Tui {
    /// Re-centers every centered node whose own or whose parent's text
    /// block size changed. Fails with `CenteredWithoutTextBlock` when such
    /// a node, or its parent, has no text block to measure.
    #[verifier::rlimit(60)]
    pub fn run_centering(&mut self, evs: &Vec<TuiEvent>) -> (r: Result<(), TuiError>)
        requires
            old(self).wf(),
            forall|k: int|
                0 <= k < evs@.len() ==> ((#[trigger] evs@[k]) matches TuiEvent::TextBlock {
                    entity,
                    ..
                } ==> entity < old(self).scene.n()),
        ensures
            final(self).wf(),
            final(self).scene.n() == old(self).scene.n(),
            final(self).scene@ == (SceneView {
                position: final(self).scene@.position,
                ..old(self).scene@
            }),
            forall|e: int|
                0 <= e < old(self).scene.n() && !centered_dirty(
                    old(self).scene@,
                    tb_event_set(evs@),
                    e,
                ) ==> final(self).scene@.position[e] == old(self).scene@.position[e],
            r is Ok ==> forall|e: int|
                0 <= e < old(self).scene.n() && centered_dirty(
                    old(self).scene@,
                    tb_event_set(evs@),
                    e,
                ) ==> final(self).scene@.position[e] == Some(centered_pos(old(self).scene@, e)),
            r matches Err(TuiError::CenteredWithoutTextBlock { node }) ==> node
                < old(self).scene.n() && centered_dirty(
                old(self).scene@,
                tb_event_set(evs@),
                node as int,
            ) && (old(self).scene@.text_block[node as int] is None || (old(
                self,
            ).scene@.parent[node as int] matches Some(p) && old(self).scene@.text_block[p as int]
                is None)),
            r is Err ==> r matches Err(TuiError::CenteredWithoutTextBlock { .. }),
            final(self).position_log.cursors() == old(self).position_log.cursors(),
            final(self).text_block_log == old(self).text_block_log,
            final(self).visible_log == old(self).visible_log,
            final(self).zlevel_log == old(self).zlevel_log,
            final(self).global_log == old(self).global_log,
            final(self).hierarchy_log == old(self).hierarchy_log,
            final(self).snap == old(self).snap,
            final(self).snap_rows == old(self).snap_rows,
            final(self).last_screen == old(self).last_screen,
            final(self).backplane == old(self).backplane,
            (forall|k: int| 0 <= k < evs@.len() ==> !((#[trigger] evs@[k]) is TextBlock)) ==> r
                is Ok && *final(self) == *old(self),
    {
        let ghost v0 = self.scene@;
        let n = self.scene.node_count();
        let mut dirty = bitset_new();
        let mut k: usize = 0;
        #[verifier::loop_isolation(false)]
        while k < evs.len()
            invariant
                k <= evs@.len(),
                forall|x: u32|
                    bits_of(dirty).contains(x) == (exists|kk: int|
                        0 <= kk < k && ((#[trigger] evs@[kk]) matches TuiEvent::TextBlock {
                            entity,
                            ..
                        } && entity == x)),
            decreases evs@.len() - k,
        {
            match evs[k] {
                TuiEvent::TextBlock { entity, .. } => {
                    bitset_add(&mut dirty, entity);
                    proof {
                        assert forall|x: u32| bits_of(dirty).contains(x) implies (exists|kk: int|
                            0 <= kk < k + 1 && ((#[trigger] evs@[kk]) matches TuiEvent::TextBlock {
                                entity: e2,
                                ..
                            } && e2 == x)) by {
                            if x == entity {
                                assert((evs@[k as int] matches TuiEvent::TextBlock {
                                    entity: e2,
                                    ..
                                } && e2 == x));
                            }
                        }
                    }
                },
                _ => {},
            }
            k += 1;
        }
        proof {
            assert(bits_of(dirty) =~= tb_event_set(evs@));
        }
        let mut e: usize = 0;
        #[verifier::loop_isolation(false)]
        while e < n
            invariant
                e <= n,
                self.wf(),
                self.scene.n() == n,
                self.scene@ == (SceneView { position: self.scene@.position, ..v0 }),
                forall|e2: int|
                    0 <= e2 < n && !centered_dirty(v0, tb_event_set(evs@), e2)
                        ==> self.scene@.position[e2] == v0.position[e2],
                forall|e2: int|
                    0 <= e2 < e && centered_dirty(v0, tb_event_set(evs@), e2)
                        ==> self.scene@.position[e2] == Some(centered_pos(v0, e2)),
                forall|e2: int|
                    e <= e2 < n ==> self.scene@.position[e2] == v0.position[e2],
                self.position_log.cursors() == old(self).position_log.cursors(),
                self.text_block_log == old(self).text_block_log,
                self.visible_log == old(self).visible_log,
                self.zlevel_log == old(self).zlevel_log,
                self.global_log == old(self).global_log,
                self.hierarchy_log == old(self).hierarchy_log,
                self.snap == old(self).snap,
                self.snap_rows == old(self).snap_rows,
                self.last_screen == old(self).last_screen,
                self.backplane == old(self).backplane,
                bits_of(dirty) =~= Set::<u32>::empty() ==> *self == *old(self),
            decreases n - e,
        {
            let is_dirty_centered = {
                let has_c = match self.scene.get_centered(e as u32) {
                    Some(_) => true,
                    None => false,
                };
                has_c && match self.scene.get_parent(e as u32) {
                    Some(p) => bitset_contains(&dirty, p) || bitset_contains(&dirty, e as u32),
                    None => false,
                }
            };
            if is_dirty_centered {
                let p = self.scene.get_parent(e as u32).unwrap();
                let c = self.scene.get_centered(e as u32).unwrap();
                proof {
                    assert(centered_dirty(v0, tb_event_set(evs@), e as int));
                    assert(v0.alive[e as int]);
                    assert(self.scene.slot_bounded(e as int));
                    assert(self.scene.slot_bounded(p as int));
                }
                let (pw, ph) = match self.scene.get_text_block(p) {
                    Some(tb) => (tb.width, tb.height),
                    None => {
                        return Err(TuiError::CenteredWithoutTextBlock { node: e as u32 });
                    },
                };
                let (w, h) = match self.scene.get_text_block(e as u32) {
                    Some(tb) => (tb.width, tb.height),
                    None => {
                        return Err(TuiError::CenteredWithoutTextBlock { node: e as u32 });
                    },
                };
                let oldp = match self.scene.get_position(e as u32) {
                    Some(pp) => pp,
                    None => Position { x: 0, y: 0 },
                };
                let nx = if c.horizontal {
                    floor_div(pw - w, 2)
                } else {
                    oldp.x
                };
                let ny = if c.vertical {
                    floor_div(ph - h, 2)
                } else {
                    oldp.y
                };
                proof {
                    let cp = centered_pos(v0, e as int);
                    assert(-0x2000_0000_0000 <= (pw as int - w as int) / 2 <= 0x2000_0000_0000);
                    assert(-0x2000_0000_0000 <= (ph as int - h as int) / 2 <= 0x2000_0000_0000);
                    if c.horizontal {
                        assert(nx as int == (pw as int - w as int) / 2);
                        assert(cp.x == ((pw as int - w as int) / 2) as i64);
                        assert(nx == cp.x);
                    } else {
                        assert(nx == cp.x);
                    }
                    if c.vertical {
                        assert(ny as int == (ph as int - h as int) / 2);
                        assert(cp.y == ((ph as int - h as int) / 2) as i64);
                        assert(ny == cp.y);
                    } else {
                        assert(ny == cp.y);
                    }
                }
                self.bump_position(e as u32, Position { x: nx, y: ny });
                proof {
                    assert(self.scene@.position[e as int] == Some(centered_pos(v0, e as int)));
                }
            }
            e += 1;
        }
        Ok(())
    }
}

} // verus!
