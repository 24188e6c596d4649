//! The visibility resolver: explicit visibility passes through untouched,
//! and a node marked as an aggregator derives its own visibility as "any
//! direct child visible". An aggregator is recomputed exactly when one of
//! its direct children's visibility changed this frame; the fresh value is
//! journalled, so a change cascades one level per pass.
use vstd::prelude::*;
use crate::dirty::{bitset_add, bitset_contains, bitset_new, bits_of};
use crate::events::TuiEvent;
use crate::journal::ChangeKind;
use crate::scene::SceneView;
use crate::tui::Tui;

verus! {

/// A node counts as visible unless it explicitly says otherwise.
pub open spec fn eff_visible(v: SceneView, c: int) -> bool {
    v.visible[c] != Some(false)
}

/// The visibility an aggregator derives: true exactly when at least one
/// direct child is effectively visible.
pub open spec fn derived_visible(v: SceneView, p: u32) -> bool {
    exists|c: int| 0 <= c < v.parent.len() && v.parent[c] == Some(p) && eff_visible(v, c)
}

/// The aggregators this frame recomputes: those with a direct child whose
/// visibility event arrived.
pub open spec fn aggregator_dirty(v: SceneView, dirty: Set<u32>, p: int) -> bool {
    v.visible_if_child[p] && exists|c: int|
        0 <= c < v.parent.len() && v.parent[c] == Some(p as u32) && dirty.contains(c as u32)
}

/// The journal entry an aggregator's write records: an insertion when the
/// node had no explicit visibility yet, a modification otherwise.
pub open spec fn agg_entry(v: SceneView, q: u32) -> (ChangeKind, u32) {
    (
        if v.visible[q as int] is Some {
            ChangeKind::Modified
        } else {
            ChangeKind::Inserted
        },
        q,
    )
}

/// The journal entries one resolver pass appends: one per recomputed
/// aggregator, in ascending node order.
pub open spec fn agg_entries(v: SceneView, evset: Set<u32>, upto: int) -> Seq<(ChangeKind, u32)>
    decreases upto,
{
    if upto <= 0 {
        Seq::empty()
    } else {
        let rest = agg_entries(v, evset, upto - 1);
        if aggregator_dirty(v, evset, upto - 1) {
            rest.push(agg_entry(v, (upto - 1) as u32))
        } else {
            rest
        }
    }
}

/// The set of nodes visibility events name.
pub open spec fn vis_event_set(evs: Seq<TuiEvent>) -> Set<u32> {
    Set::new(
        |x: u32|
            exists|k: int|
                0 <= k < evs.len() && ((#[trigger] evs[k]) matches TuiEvent::Visible {
                    entity,
                    ..
                } && entity == x),
    )
}

impl Tui {
    /// Recomputes every aggregator one of whose direct children had a
    /// visibility event, writing (and journalling) the derived value. All
    /// derived values are computed against the state the pass started from,
    /// so propagation is one level per pass.
    #[verifier::rlimit(60)]
    pub fn run_visibility(&mut self, evs: &Vec<TuiEvent>)
        requires
            old(self).wf(),
            forall|k: int|
                0 <= k < evs@.len() ==> ((#[trigger] evs@[k]) matches TuiEvent::Visible {
                    entity,
                    ..
                } ==> entity < old(self).scene.n()),
        ensures
            final(self).wf(),
            final(self).scene.n() == old(self).scene.n(),
            final(self).scene@ == (SceneView { visible: final(self).scene@.visible, ..old(self).scene@ }),
            forall|p: int|
                0 <= p < old(self).scene.n() && !aggregator_dirty(
                    old(self).scene@,
                    vis_event_set(evs@),
                    p,
                ) ==> final(self).scene@.visible[p] == old(self).scene@.visible[p],
            forall|p: int|
                0 <= p < old(self).scene.n() && aggregator_dirty(
                    old(self).scene@,
                    vis_event_set(evs@),
                    p,
                ) ==> final(self).scene@.visible[p] == Some(
                    derived_visible(old(self).scene@, p as u32),
                ),
            final(self).visible_log.cursors() == old(self).visible_log.cursors(),
            final(self).visible_log.log() =~= old(self).visible_log.log() + agg_entries(
                old(self).scene@,
                vis_event_set(evs@),
                old(self).scene.n(),
            ),
            final(self).position_log == old(self).position_log,
            final(self).text_block_log == old(self).text_block_log,
            final(self).zlevel_log == old(self).zlevel_log,
            final(self).global_log == old(self).global_log,
            final(self).hierarchy_log == old(self).hierarchy_log,
            final(self).snap == old(self).snap,
            final(self).snap_rows == old(self).snap_rows,
            final(self).last_screen == old(self).last_screen,
            final(self).backplane == old(self).backplane,
            (forall|k: int| 0 <= k < evs@.len() ==> !((#[trigger] evs@[k]) is Visible)) ==> *final(self) == *old(self),
    {
        let ghost v0 = self.scene@;
        let n = self.scene.node_count();
        let mut dirty = bitset_new();
        let mut k: usize = 0;
        #[verifier::loop_isolation(false)]
        while k < evs.len()
            invariant
                k <= evs@.len(),
                forall|x: u32| bits_of(dirty).contains(x) ==> x < n,
                forall|x: u32|
                    bits_of(dirty).contains(x) == (exists|kk: int|
                        0 <= kk < k && ((#[trigger] evs@[kk]) matches TuiEvent::Visible {
                            entity,
                            ..
                        } && entity == x)),
            decreases evs@.len() - k,
        {
            match evs[k] {
                TuiEvent::Visible { entity, .. } => {
                    bitset_add(&mut dirty, entity);
                    proof {
                        assert forall|x: u32| bits_of(dirty).contains(x) implies (exists|kk: int|
                            0 <= kk < k + 1 && ((#[trigger] evs@[kk]) matches TuiEvent::Visible {
                                entity: e2,
                                ..
                            } && e2 == x)) by {
                            if x == entity {
                                assert((evs@[k as int] matches TuiEvent::Visible { entity: e2, .. }
                                    && e2 == x));
                            }
                        }
                    }
                },
                _ => {},
            }
            k += 1;
        }
        proof {
            assert(bits_of(dirty) =~= vis_event_set(evs@));
        }
        // decide each aggregator from the state the pass started in
        let mut updates: Vec<(u32, bool)> = Vec::new();
        let mut p: usize = 0;
        #[verifier::loop_isolation(false)]
        while p < n
            invariant
                p <= n,
                *self == *old(self),
                forall|m: int|
                    0 <= m < updates@.len() ==> {
                        let (q, val) = #[trigger] updates@[m];
                        q < p && aggregator_dirty(v0, vis_event_set(evs@), q as int) && val
                            == derived_visible(v0, q) && v0.alive[q as int]
                    },
                forall|q: int|
                    0 <= q < p && aggregator_dirty(v0, vis_event_set(evs@), q) ==> exists|m: int|
                        0 <= m < updates@.len() && (#[trigger] updates@[m]).0 == q as u32,
                forall|a: int, b: int|
                    0 <= a < b < updates@.len() ==> (#[trigger] updates@[a]).0 < (
                    #[trigger] updates@[b]).0,
                agg_entries(v0, vis_event_set(evs@), p as int) =~= updates@.map_values(
                    |u: (u32, bool)| agg_entry(v0, u.0),
                ),
            decreases n - p,
        {
            if self.scene.get_visible_if_child(p as u32) {
                // does a direct child carry a visibility event?
                let mut hit = false;
                let mut any_vis = false;
                let mut c: usize = 0;
                #[verifier::loop_isolation(false)]
                while c < n
                    invariant
                        c <= n,
                        *self == *old(self),
                        hit == (exists|cc: int|
                            0 <= cc < c && v0.parent[cc] == Some(p as u32) && bits_of(
                                dirty,
                            ).contains(cc as u32)),
                        any_vis == (exists|cc: int|
                            0 <= cc < c && v0.parent[cc] == Some(p as u32) && eff_visible(v0, cc)),
                    decreases n - c,
                {
                    let is_child = match self.scene.get_parent(c as u32) {
                        Some(q) => q == p as u32,
                        None => false,
                    };
                    if is_child {
                        if bitset_contains(&dirty, c as u32) {
                            hit = true;
                            proof {
                                assert(v0.parent[c as int] == Some(p as u32) && bits_of(
                                    dirty,
                                ).contains(c as u32));
                            }
                        }
                        let vis = match self.scene.get_visible(c as u32) {
                            Some(b) => b,
                            None => true,
                        };
                        if vis {
                            any_vis = true;
                            proof {
                                assert(v0.parent[c as int] == Some(p as u32) && eff_visible(
                                    v0,
                                    c as int,
                                ));
                            }
                        }
                    }
                    c += 1;
                }
                if hit {
                    proof {
                        assert(aggregator_dirty(v0, vis_event_set(evs@), p as int));
                        assert(any_vis == derived_visible(v0, p as u32));
                        assert(v0.alive[p as int]) by {
                            let cc = choose|cc: int|
                                0 <= cc < v0.parent.len() && v0.parent[cc] == Some(p as u32)
                                    && bits_of(dirty).contains(cc as u32);
                            assert(v0.parent[cc] == Some(p as u32));
                        }
                    }
                    let ghost upd_before = updates@;
                    updates.push((p as u32, any_vis));
                    proof {
                        assert((updates@[updates@.len() - 1]).0 == p as u32);
                        assert(agg_entries(v0, vis_event_set(evs@), p + 1) =~= agg_entries(
                            v0,
                            vis_event_set(evs@),
                            p as int,
                        ).push(agg_entry(v0, p as u32)));
                        assert(updates@.map_values(|u: (u32, bool)| agg_entry(v0, u.0))
                            =~= upd_before.map_values(|u: (u32, bool)| agg_entry(v0, u.0)).push(
                            agg_entry(v0, p as u32),
                        ));
                        assert(agg_entries(v0, vis_event_set(evs@), p + 1) =~= updates@.map_values(
                            |u: (u32, bool)| agg_entry(v0, u.0),
                        ));
                        assert forall|q: int|
                            0 <= q < p + 1 && aggregator_dirty(v0, vis_event_set(evs@), q)
                            implies exists|m: int|
                            0 <= m < updates@.len() && (#[trigger] updates@[m]).0 == q as u32 by {
                            if q == p as int {
                                assert((updates@[updates@.len() - 1]).0 == q as u32);
                            } else {
                                let m0 = choose|m0: int|
                                    0 <= m0 < upd_before.len() && (#[trigger] upd_before[m0]).0
                                        == q as u32;
                                assert((updates@[m0]).0 == q as u32);
                            }
                        }
                    }
                } else {
                    proof {
                        assert(!aggregator_dirty(v0, vis_event_set(evs@), p as int)) by {
                            if aggregator_dirty(v0, vis_event_set(evs@), p as int) {
                                let cc = choose|cc: int|
                                    0 <= cc < v0.parent.len() && v0.parent[cc] == Some(p as u32)
                                        && vis_event_set(evs@).contains(cc as u32);
                                assert(bits_of(dirty).contains(cc as u32));
                            }
                        }
                    }
                }
            }
            proof {
                if !v0.visible_if_child[p as int] {
                    assert(!aggregator_dirty(v0, vis_event_set(evs@), p as int));
                }
            }
            p += 1;
        }
        // write them back, journalling each
        let ghost ups = updates@;
        let mut m: usize = 0;
        #[verifier::loop_isolation(false)]
        while m < updates.len()
            invariant
                m <= ups.len(),
                updates@ == ups,
                m == 0 ==> *self == *old(self),
                self.visible_log.log() =~= old(self).visible_log.log() + ups.subrange(
                    0,
                    m as int,
                ).map_values(|u: (u32, bool)| agg_entry(v0, u.0)),
                agg_entries(v0, vis_event_set(evs@), n as int) =~= ups.map_values(
                    |u: (u32, bool)| agg_entry(v0, u.0),
                ),
                self.wf(),
                self.scene.n() == n,
                self.scene@ == (SceneView { visible: self.scene@.visible, ..v0 }),
                forall|q: int|
                    0 <= q < n && !(exists|mm: int|
                        0 <= mm < m && (#[trigger] ups[mm]).0 == q as u32)
                        ==> self.scene@.visible[q] == v0.visible[q],
                forall|mm: int|
                    0 <= mm < m ==> self.scene@.visible[(#[trigger] ups[mm]).0 as int] == Some(
                        ups[mm].1,
                    ),
                self.visible_log.cursors() == old(self).visible_log.cursors(),
                self.position_log == old(self).position_log,
                self.text_block_log == old(self).text_block_log,
                self.zlevel_log == old(self).zlevel_log,
                self.global_log == old(self).global_log,
                self.hierarchy_log == old(self).hierarchy_log,
                self.snap == old(self).snap,
                self.snap_rows == old(self).snap_rows,
                self.last_screen == old(self).last_screen,
                self.backplane == old(self).backplane,
            decreases ups.len() - m,
        {
            let (q, val) = updates[m];
            proof {
                assert(!(exists|mm: int| 0 <= mm < m && (#[trigger] ups[mm]).0 == q)) by {
                    if exists|mm: int| 0 <= mm < m && (#[trigger] ups[mm]).0 == q {
                        let mm = choose|mm: int| 0 <= mm < m && (#[trigger] ups[mm]).0 == q;
                        assert(ups[mm].0 < ups[m as int].0);
                    }
                }
                assert(self.scene@.visible[q as int] == v0.visible[q as int]);
            }
            let was = self.scene.set_visible(q, val);
            let kind = if was {
                ChangeKind::Modified
            } else {
                ChangeKind::Inserted
            };
            self.visible_log.record((kind, q));
            proof {
                assert((kind, q) == agg_entry(v0, q));
                assert(ups.subrange(0, m + 1) =~= ups.subrange(0, m as int).push(ups[m as int]));
                assert(ups.subrange(0, m + 1).map_values(|u: (u32, bool)| agg_entry(v0, u.0))
                    =~= ups.subrange(0, m as int).map_values(
                    |u: (u32, bool)| agg_entry(v0, u.0),
                ).push(agg_entry(v0, q)));
                assert(self.visible_log.log() =~= old(self).visible_log.log() + ups.subrange(
                    0,
                    m + 1,
                ).map_values(|u: (u32, bool)| agg_entry(v0, u.0)));
            }
            proof {
                assert forall|mm: int| 0 <= mm < m + 1 implies self.scene@.visible[(
                #[trigger] ups[mm]).0 as int] == Some(ups[mm].1) by {
                    if mm < m {
                        assert(ups[mm].0 != ups[m as int].0) by {
                            assert(ups[mm].0 < ups[m as int].0);
                        }
                    }
                }
            }
            m += 1;
        }
        proof {
            assert(ups.subrange(0, ups.len() as int) =~= ups);
            assert(self.visible_log.log() =~= old(self).visible_log.log() + agg_entries(
                v0,
                vis_event_set(evs@),
                n as int,
            ));
            assert forall|q: int|
                0 <= q < n && aggregator_dirty(v0, vis_event_set(evs@), q) implies self.scene@.visible[q]
                == Some(derived_visible(v0, q as u32)) by {
                let mm = choose|mm: int| 0 <= mm < ups.len() && (#[trigger] ups[mm]).0 == q as u32;
                assert(self.scene@.visible[ups[mm].0 as int] == Some(ups[mm].1));
            }
            if forall|k2: int| 0 <= k2 < evs@.len() ==> !((#[trigger] evs@[k2]) is Visible) {
                assert(vis_event_set(evs@) =~= Set::<u32>::empty()) by {
                    assert forall|x: u32| !vis_event_set(evs@).contains(x) by {
                        if vis_event_set(evs@).contains(x) {
                            let kk = choose|kk: int|
                                0 <= kk < evs@.len() && ((#[trigger] evs@[kk]) matches TuiEvent::Visible {
                                    entity,
                                    ..
                                } && entity == x);
                            assert(evs@[kk] is Visible);
                        }
                    }
                }
                assert(ups.len() == 0) by {
                    if ups.len() > 0 {
                        assert(aggregator_dirty(v0, vis_event_set(evs@), ups[0].0 as int));
                        let cc = choose|cc: int|
                            0 <= cc < v0.parent.len() && v0.parent[cc] == Some(ups[0].0)
                                && vis_event_set(evs@).contains(cc as u32);
                        assert(vis_event_set(evs@).contains(cc as u32));
                    }
                }
                assert(self.scene@ =~= v0) by {
                    assert(self.scene@.visible =~= v0.visible);
                }
                assert(self.scene@.visible =~= v0.visible);
            }
        }
    }
}

} // verus!
