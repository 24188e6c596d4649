//! The event normalizer: drains the attribute journals once per frame,
//! compares each journalled node's current value against the last value it
//! reported (its snapshot), and emits one semantic event per actual change,
//! so every downstream pass shares a single definition of "did this
//! logically change". No-op writes are suppressed.
use vstd::prelude::*;
use crate::components::{Position, ScreenSize, MAX_SCREEN};
use crate::dirty::{bitset_add, bitset_contains, bitset_new, bits_of};
use crate::events::{HierarchyEvent, TuiEvent, TuiStatus};
use crate::journal::ChangeKind;
use crate::scene::{SceneView, TextBlockV};
use crate::border::rows_eq;
use crate::tui::{Tui, BORDER_READER, NORMALIZER_READER};

verus! {

/// The size a text block declares, as a point, or `None` without a block.
pub open spec fn tb_size(o: Option<TextBlockV>) -> Option<Position> {
    match o {
        Some(t) => Some(Position { x: t.width as i64, y: t.height as i64 }),
        None => None,
    }
}

/// The rows a text block holds, or `None` without a block.
pub open spec fn tb_rows(o: Option<TextBlockV>) -> Option<Seq<Seq<char>>> {
    match o {
        Some(t) => Some(t.rows),
        None => None,
    }
}

/// The content of a cached rows snapshot.
pub open spec fn snaprows_view(o: Option<Vec<Vec<char>>>) -> Option<Seq<Seq<char>>> {
    match o {
        Some(r) => Some(r@.map_values(|x: Vec<char>| x@)),
        None => None,
    }
}

/// A fresh copy of a row grid, for the normalizer's snapshot.
fn rows_clone(r: &Vec<Vec<char>>) -> (c: Vec<Vec<char>>)
    ensures
        c@.map_values(|v: Vec<char>| v@) =~= r@.map_values(|v: Vec<char>| v@),
{
    let mut c: Vec<Vec<char>> = Vec::new();
    let mut y: usize = 0;
    #[verifier::loop_isolation(false)]
    while y < r.len()
        invariant
            y <= r@.len(),
            c@.len() == y,
            forall|yy: int| 0 <= yy < y ==> (#[trigger] c@[yy])@ =~= r@[yy]@,
        decreases r@.len() - y,
    {
        let src = &r[y];
        let mut row: Vec<char> = Vec::new();
        let mut x: usize = 0;
        #[verifier::loop_isolation(false)]
        while x < src.len()
            invariant
                x <= src@.len(),
                row@.len() == x,
                src == &r[y as int],
                y < r@.len(),
                forall|xx: int| 0 <= xx < x ==> (#[trigger] row@[xx]) == src@[xx],
            decreases src@.len() - x,
        {
            row.push(src[x]);
            x += 1;
        }
        c.push(row);
        y += 1;
    }
    proof {
        assert forall|yy: int| #![trigger c@[yy]] 0 <= yy < c@.len() implies c@.map_values(
            |v: Vec<char>| v@,
        )[yy] == r@.map_values(|v: Vec<char>| v@)[yy] by {
            assert(c@[yy]@ =~= r@[yy]@);
        }
    }
    c
}

/// What a normalized event claims, checked against the store as it stands
/// and the snapshot as it stood when the frame began: the reported new value
/// is the stored one, the reported old value is the snapshot, and the two
/// differ.
pub open spec fn event_sound(
    v: SceneView,
    snap0: Seq<TuiStatus>,
    rows0: Seq<Option<Vec<Vec<char>>>>,
    screen: ScreenSize,
    screen0: ScreenSize,
    ev: TuiEvent,
) -> bool {
    match ev {
        TuiEvent::Position { entity, new, old } => entity < v.alive.len() && new
            == v.position[entity as int] && old == snap0[entity as int].position && new != old,
        TuiEvent::GlobalPosition { entity, new, old } => entity < v.alive.len() && new
            == v.global_position[entity as int] && old == snap0[entity as int].global_position
            && new != old,
        TuiEvent::TextBlock { entity, new_size, old_size } => entity < v.alive.len() && new_size
            == tb_size(v.text_block[entity as int]) && old_size == snap0[entity as int].text_block
            && (new_size != old_size || tb_rows(v.text_block[entity as int]) != snaprows_view(
            rows0[entity as int],
        )),
        TuiEvent::Visible { entity, new, old } => entity < v.alive.len() && new
            == v.visible[entity as int] && old == snap0[entity as int].visible && new != old,
        TuiEvent::ZLevel { entity, new, old } => entity < v.alive.len() && new
            == v.zlevel[entity as int] && old == snap0[entity as int].zlevel && new != old,
        TuiEvent::HierarchyModified(_) => true,
        TuiEvent::HierarchyRemoved(_) => true,
        TuiEvent::ScreenSize { new, old } => new == screen && old == screen0 && new != old,
    }
}

/// The node indices a stretch of journal entries names, indices out of
/// range ignored.
pub open spec fn entry_ids(entries: Seq<(ChangeKind, u32)>, n: int, k: int) -> Set<u32>
    decreases k,
{
    if k <= 0 {
        Set::empty()
    } else {
        let prev = entry_ids(entries, n, k - 1);
        if entries[k - 1].1 < n {
            prev.insert(entries[k - 1].1)
        } else {
            prev
        }
    }
}

/// The nodes named by everything recorded in `log` past `cursor`.
pub open spec fn pending_ids(log: Seq<(ChangeKind, u32)>, cursor: int, n: int) -> Set<u32> {
    entry_ids(log.subrange(cursor, log.len() as int), n, log.len() - cursor)
}

/// All the journals the normalizer polls have been read to their ends, and
/// the terminal still reports the size of the previous frame: nothing can
/// have logically changed.
pub open spec fn quiescent(t: Tui, screen: ScreenSize) -> bool {
    &&& t.position_log.caught_up(NORMALIZER_READER as int)
    &&& t.global_log.caught_up(NORMALIZER_READER as int)
    &&& t.text_block_log.caught_up(NORMALIZER_READER as int)
    &&& t.text_block_log.caught_up(BORDER_READER as int)
    &&& t.visible_log.caught_up(NORMALIZER_READER as int)
    &&& t.zlevel_log.caught_up(NORMALIZER_READER as int)
    &&& t.hierarchy_log.caught_up(NORMALIZER_READER as int)
    &&& screen == t.last_screen
    &&& t.backplane_ok()
}

fn opt_pos_eq(a: Option<Position>, b: Option<Position>) -> (r: bool)
    ensures
        r == (a == b),
{
    match (a, b) {
        (Some(x), Some(y)) => x.x == y.x && x.y == y.y,
        (None, None) => true,
        _ => false,
    }
}

fn opt_bool_eq(a: Option<bool>, b: Option<bool>) -> (r: bool)
    ensures
        r == (a == b),
{
    match (a, b) {
        (Some(x), Some(y)) => x == y,
        (None, None) => true,
        _ => false,
    }
}

fn opt_i64_eq(a: Option<i64>, b: Option<i64>) -> (r: bool)
    ensures
        r == (a == b),
{
    match (a, b) {
        (Some(x), Some(y)) => x == y,
        (None, None) => true,
        _ => false,
    }
}

impl Tui {
    /// Polls every attribute journal and the hierarchy journal, emits one
    /// deduplicated semantic event per actual change (plus a screen size
    /// event when the terminal size changed), updates the snapshot to the
    /// reported values, and advances the normalizer's cursors. The store
    /// itself is never written.
    pub fn run_normalize(&mut self, screen: ScreenSize) -> (evs: Vec<TuiEvent>)
        requires
            old(self).wf(),
            0 <= screen.width <= MAX_SCREEN,
            0 <= screen.height <= MAX_SCREEN,
        ensures
            final(self).wf(),
            final(self).scene == old(self).scene,
            final(self).last_screen == screen,
            final(self).backplane == old(self).backplane,
            final(self).position_log.log() == old(self).position_log.log(),
            final(self).global_log.log() == old(self).global_log.log(),
            final(self).text_block_log.log() == old(self).text_block_log.log(),
            final(self).visible_log.log() == old(self).visible_log.log(),
            final(self).zlevel_log.log() == old(self).zlevel_log.log(),
            final(self).hierarchy_log.log() == old(self).hierarchy_log.log(),
            final(self).position_log.caught_up(NORMALIZER_READER as int),
            final(self).global_log.caught_up(NORMALIZER_READER as int),
            final(self).text_block_log.caught_up(NORMALIZER_READER as int),
            final(self).visible_log.caught_up(NORMALIZER_READER as int),
            final(self).zlevel_log.caught_up(NORMALIZER_READER as int),
            final(self).hierarchy_log.caught_up(NORMALIZER_READER as int),
            final(self).text_block_log.cursors()[BORDER_READER as int] == old(
                self,
            ).text_block_log.cursors()[BORDER_READER as int],
            forall|k: int|
                0 <= k < evs@.len() ==> event_sound(
                    old(self).scene@,
                    old(self).snap@,
                    old(self).snap_rows@,
                    screen,
                    old(self).last_screen,
                    #[trigger] evs@[k],
                ),
            forall|i: int|
                0 <= i < old(self).scene.n() && pending_ids(
                    old(self).position_log.log(),
                    old(self).position_log.cursors()[NORMALIZER_READER as int],
                    old(self).scene.n(),
                ).contains(i as u32) && old(self).scene@.position[i] != old(self).snap@[i].position
                ==> exists|k: int|
                    0 <= k < evs@.len() && ((#[trigger] evs@[k]) matches TuiEvent::Position {
                        entity,
                        ..
                    } && entity == i as u32),
            forall|i: int|
                0 <= i < old(self).scene.n() ==> final(self).snap@[i].position == (if pending_ids(
                    old(self).position_log.log(),
                    old(self).position_log.cursors()[NORMALIZER_READER as int],
                    old(self).scene.n(),
                ).contains(i as u32) && old(self).scene@.position[i] != old(self).snap@[i].position {
                    old(self).scene@.position[i]
                } else {
                    old(self).snap@[i].position
                }),
            forall|i: int|
                0 <= i < old(self).scene.n() && pending_ids(
                    old(self).global_log.log(),
                    old(self).global_log.cursors()[NORMALIZER_READER as int],
                    old(self).scene.n(),
                ).contains(i as u32) && old(self).scene@.global_position[i] != old(
                    self,
                ).snap@[i].global_position ==> exists|k: int|
                    0 <= k < evs@.len() && ((#[trigger] evs@[k]) matches TuiEvent::GlobalPosition {
                        entity,
                        ..
                    } && entity == i as u32),
            forall|i: int|
                0 <= i < old(self).scene.n() ==> final(self).snap@[i].global_position == (
                if pending_ids(
                    old(self).global_log.log(),
                    old(self).global_log.cursors()[NORMALIZER_READER as int],
                    old(self).scene.n(),
                ).contains(i as u32) && old(self).scene@.global_position[i] != old(
                    self,
                ).snap@[i].global_position {
                    old(self).scene@.global_position[i]
                } else {
                    old(self).snap@[i].global_position
                }),
            forall|i: int|
                0 <= i < old(self).scene.n() && pending_ids(
                    old(self).text_block_log.log(),
                    old(self).text_block_log.cursors()[NORMALIZER_READER as int],
                    old(self).scene.n(),
                ).contains(i as u32) && (tb_size(old(self).scene@.text_block[i]) != old(
                    self,
                ).snap@[i].text_block || tb_rows(old(self).scene@.text_block[i]) != snaprows_view(
                    old(self).snap_rows@[i],
                )) ==> exists|k: int|
                    0 <= k < evs@.len() && ((#[trigger] evs@[k]) matches TuiEvent::TextBlock {
                        entity,
                        ..
                    } && entity == i as u32),
            forall|i: int|
                0 <= i < old(self).scene.n() && pending_ids(
                    old(self).visible_log.log(),
                    old(self).visible_log.cursors()[NORMALIZER_READER as int],
                    old(self).scene.n(),
                ).contains(i as u32) && old(self).scene@.visible[i] != old(self).snap@[i].visible
                ==> exists|k: int|
                    0 <= k < evs@.len() && ((#[trigger] evs@[k]) matches TuiEvent::Visible {
                        entity,
                        ..
                    } && entity == i as u32),
            forall|i: int|
                0 <= i < old(self).scene.n() && pending_ids(
                    old(self).zlevel_log.log(),
                    old(self).zlevel_log.cursors()[NORMALIZER_READER as int],
                    old(self).scene.n(),
                ).contains(i as u32) && old(self).scene@.zlevel[i] != old(self).snap@[i].zlevel
                ==> exists|k: int|
                    0 <= k < evs@.len() && ((#[trigger] evs@[k]) matches TuiEvent::ZLevel {
                        entity,
                        ..
                    } && entity == i as u32),
            forall|k2: int|
                old(self).hierarchy_log.cursors()[NORMALIZER_READER as int] <= k2 < old(
                    self,
                ).hierarchy_log.log().len() ==> exists|k: int|
                    0 <= k < evs@.len() && (#[trigger] evs@[k]) == (match #[trigger] old(
                        self,
                    ).hierarchy_log.log()[k2] {
                        HierarchyEvent::Modified(x) => TuiEvent::HierarchyModified(x),
                        HierarchyEvent::Removed(x) => TuiEvent::HierarchyRemoved(x),
                    }),
            (exists|k: int| 0 <= k < evs@.len() && (#[trigger] evs@[k]) is ScreenSize) == (screen
                != old(self).last_screen),
            quiescent(*old(self), screen) ==> evs@.len() == 0 && final(self).snap@ =~= old(self).snap@
                && final(self).snap_rows == old(self).snap_rows,
    {

        let ghost v0 = self.scene@;
        let ghost snap0 = self.snap@;
        let ghost rows0 = self.snap_rows@;
        let ghost screen0 = self.last_screen;
        let mut evs: Vec<TuiEvent> = Vec::new();
        let n = self.scene.node_count();


        // positions
        let entries_p = self.position_log.read(NORMALIZER_READER);
        let ghost pl_p = self.position_log;
        let ghost gl_p = self.global_log;
        let ghost tl_p = self.text_block_log;
        let ghost vl_p = self.visible_log;
        let ghost zl_p = self.zlevel_log;
        let ghost hl_p = self.hierarchy_log;
        let mut dirty_p = bitset_new();
        let mut jp: usize = 0;
        #[verifier::loop_isolation(false)]
        while jp < entries_p.len()
            invariant
                jp <= entries_p@.len(),
                forall|id: u32| bits_of(dirty_p).contains(id) ==> id < n,
                bits_of(dirty_p) =~= entry_ids(entries_p@, n as int, jp as int),
                entries_p@.len() == 0 ==> bits_of(dirty_p) =~= Set::<u32>::empty(),
            decreases entries_p@.len() - jp,
        {
            let id = entries_p[jp].1;
            if (id as usize) < n {
                bitset_add(&mut dirty_p, id);
            }
            proof {
                assert(bits_of(dirty_p) =~= entry_ids(entries_p@, n as int, jp + 1));
            }
            jp += 1;
        }
        proof {
            assert(bits_of(dirty_p) =~= pending_ids(
                old(self).position_log.log(),
                old(self).position_log.cursors()[NORMALIZER_READER as int],
                n as int,
            ));
        }
        let ghost evs_base_p = evs@.len() as int;
        let ghost snap_base_p = self.snap@;
        let mut ip: usize = 0;
        #[verifier::loop_isolation(false)]
        while ip < n
            invariant
                ip <= n,
                self.scene == old(self).scene,
                self.snap@.len() == n,
                self.position_log == pl_p,
                self.global_log == gl_p,
                self.text_block_log == tl_p,
                self.visible_log == vl_p,
                self.zlevel_log == zl_p,
                self.hierarchy_log == hl_p,
                self.snap_rows == old(self).snap_rows,
                self.last_screen == screen0,
                self.backplane == old(self).backplane,
                forall|k: int|
                    0 <= k < evs@.len() ==> event_sound(v0, snap0, rows0, screen, screen0, #[trigger] evs@[k]),
                forall|k: int| 0 <= k < evs@.len() ==> !((#[trigger] evs@[k]) is ScreenSize),
                forall|m: int|
                    0 <= m < n ==> (#[trigger] self.snap@[m]).global_position == snap0[m].global_position && self.snap@[m].text_block == snap0[m].text_block && self.snap@[m].visible == snap0[m].visible && self.snap@[m].zlevel == snap0[m].zlevel,
                forall|m: int|
                    ip <= m < n ==> (#[trigger] self.snap@[m]).position == snap0[m].position,
                forall|i2: int|
                    0 <= i2 < ip && bits_of(dirty_p).contains(i2 as u32) && v0.position[i2] != snap0[i2].position
                        ==> exists|k: int|
                        0 <= k < evs@.len() && ((#[trigger] evs@[k]) matches TuiEvent::Position {
                            entity,
                            ..
                        } && entity == i2 as u32),
                forall|i2: int|
                    0 <= i2 < ip ==> (#[trigger] self.snap@[i2]).position == (if bits_of(
                        dirty_p,
                    ).contains(i2 as u32) && v0.position[i2] != snap0[i2].position {
                        v0.position[i2]
                    } else {
                        snap0[i2].position
                    }),
                bits_of(dirty_p) =~= Set::<u32>::empty() ==> evs@.len() == evs_base_p
                    && self.snap@ =~= snap_base_p,
            decreases n - ip,
        {
            if bitset_contains(&dirty_p, ip as u32) {
                let cur = self.scene.get_position(ip as u32);
                let mut st = self.snap[ip];
                if !opt_pos_eq(cur, st.position) {
                    let ghost evs_prev = evs@;
                    evs.push(TuiEvent::Position { entity: ip as u32, new: cur, old: st.position });
                    proof {
                        let ghost evs_prev2 = evs@;
                        assert forall|i2: int|
                            0 <= i2 < ip + 1 && bits_of(dirty_p).contains(i2 as u32) && v0.position[i2] != snap0[i2].position
                            implies exists|k: int|
                            0 <= k < evs@.len() && ((#[trigger] evs@[k]) matches TuiEvent::Position {
                                entity,
                                ..
                            } && entity == i2 as u32) by {
                            if i2 == ip as int {
                                assert(((evs@[evs@.len() - 1]) matches TuiEvent::Position { entity, .. }
                                    && entity == i2 as u32));
                            } else {
                                let k0 = choose|k0: int|
                                    0 <= k0 < evs_prev.len() && ((#[trigger] evs_prev[k0])
                                        matches TuiEvent::Position { entity, .. } && entity == i2 as u32);
                                assert(evs@[k0] == evs_prev[k0]);
                            }
                        }
                    }

                    st.position = cur;
                    self.snap[ip] = st;
                }
            }
            ip += 1;
        }


        // derived global positions
        let entries_g = self.global_log.read(NORMALIZER_READER);
        let ghost pl_g = self.position_log;
        let ghost gl_g = self.global_log;
        let ghost tl_g = self.text_block_log;
        let ghost vl_g = self.visible_log;
        let ghost zl_g = self.zlevel_log;
        let ghost hl_g = self.hierarchy_log;
        let mut dirty_g = bitset_new();
        let mut jg: usize = 0;
        #[verifier::loop_isolation(false)]
        while jg < entries_g.len()
            invariant
                jg <= entries_g@.len(),
                forall|id: u32| bits_of(dirty_g).contains(id) ==> id < n,
                bits_of(dirty_g) =~= entry_ids(entries_g@, n as int, jg as int),
                entries_g@.len() == 0 ==> bits_of(dirty_g) =~= Set::<u32>::empty(),
            decreases entries_g@.len() - jg,
        {
            let id = entries_g[jg].1;
            if (id as usize) < n {
                bitset_add(&mut dirty_g, id);
            }
            proof {
                assert(bits_of(dirty_g) =~= entry_ids(entries_g@, n as int, jg + 1));
            }
            jg += 1;
        }
        proof {
            assert(bits_of(dirty_g) =~= pending_ids(
                old(self).global_log.log(),
                old(self).global_log.cursors()[NORMALIZER_READER as int],
                n as int,
            ));
        }
        let ghost evs_base_g = evs@.len() as int;
        let ghost snap_base_g = self.snap@;
        let mut ig: usize = 0;
        #[verifier::loop_isolation(false)]
        while ig < n
            invariant
                ig <= n,
                self.scene == old(self).scene,
                self.snap@.len() == n,
                self.position_log == pl_g,
                self.global_log == gl_g,
                self.text_block_log == tl_g,
                self.visible_log == vl_g,
                self.zlevel_log == zl_g,
                self.hierarchy_log == hl_g,
                self.snap_rows == old(self).snap_rows,
                self.last_screen == screen0,
                self.backplane == old(self).backplane,
                forall|k: int|
                    0 <= k < evs@.len() ==> event_sound(v0, snap0, rows0, screen, screen0, #[trigger] evs@[k]),
                forall|k: int| 0 <= k < evs@.len() ==> !((#[trigger] evs@[k]) is ScreenSize),
                forall|m: int|
                    0 <= m < n ==> (#[trigger] self.snap@[m]).text_block == snap0[m].text_block && self.snap@[m].visible == snap0[m].visible && self.snap@[m].zlevel == snap0[m].zlevel,
                forall|m: int|
                    ig <= m < n ==> (#[trigger] self.snap@[m]).global_position == snap0[m].global_position,
                forall|i2: int|
                    0 <= i2 < ig && bits_of(dirty_g).contains(i2 as u32) && v0.global_position[i2] != snap0[i2].global_position
                        ==> exists|k: int|
                        0 <= k < evs@.len() && ((#[trigger] evs@[k]) matches TuiEvent::GlobalPosition {
                            entity,
                            ..
                        } && entity == i2 as u32),
                forall|i2: int|
                    0 <= i2 < ig ==> (#[trigger] self.snap@[i2]).global_position == (if bits_of(
                        dirty_g,
                    ).contains(i2 as u32) && v0.global_position[i2] != snap0[i2].global_position {
                        v0.global_position[i2]
                    } else {
                        snap0[i2].global_position
                    }),
                forall|i2: int|
                    0 <= i2 < n && bits_of(dirty_p).contains(i2 as u32) && v0.position[i2] != snap0[i2].position
                        ==> exists|k: int|
                        0 <= k < evs@.len() && ((#[trigger] evs@[k]) matches TuiEvent::Position {
                            entity,
                            ..
                        } && entity == i2 as u32),
                forall|i2: int|
                    0 <= i2 < n ==> (#[trigger] self.snap@[i2]).position == (if bits_of(
                        dirty_p,
                    ).contains(i2 as u32) && v0.position[i2] != snap0[i2].position {
                        v0.position[i2]
                    } else {
                        snap0[i2].position
                    }),
                bits_of(dirty_g) =~= Set::<u32>::empty() ==> evs@.len() == evs_base_g
                    && self.snap@ =~= snap_base_g,
            decreases n - ig,
        {
            if bitset_contains(&dirty_g, ig as u32) {
                let cur = self.scene.get_global_position(ig as u32);
                let mut st = self.snap[ig];
                if !opt_pos_eq(cur, st.global_position) {
                    let ghost evs_prev = evs@;
                    evs.push(TuiEvent::GlobalPosition { entity: ig as u32, new: cur, old: st.global_position });
                    proof {
                        let ghost evs_prev2 = evs@;
                        assert forall|i2: int|
                            0 <= i2 < ig + 1 && bits_of(dirty_g).contains(i2 as u32) && v0.global_position[i2] != snap0[i2].global_position
                            implies exists|k: int|
                            0 <= k < evs@.len() && ((#[trigger] evs@[k]) matches TuiEvent::GlobalPosition {
                                entity,
                                ..
                            } && entity == i2 as u32) by {
                            if i2 == ig as int {
                                assert(((evs@[evs@.len() - 1]) matches TuiEvent::GlobalPosition { entity, .. }
                                    && entity == i2 as u32));
                            } else {
                                let k0 = choose|k0: int|
                                    0 <= k0 < evs_prev.len() && ((#[trigger] evs_prev[k0])
                                        matches TuiEvent::GlobalPosition { entity, .. } && entity == i2 as u32);
                                assert(evs@[k0] == evs_prev[k0]);
                            }
                        }
                    }

                    proof {
                        assert forall|i2: int|
                            0 <= i2 < n && bits_of(dirty_p).contains(i2 as u32) && v0.position[i2] != snap0[i2].position
                            implies exists|k: int|
                            0 <= k < evs@.len() && ((#[trigger] evs@[k]) matches TuiEvent::Position {
                                entity,
                                ..
                            } && entity == i2 as u32) by {
                            let k0 = choose|k0: int|
                                0 <= k0 < evs_prev.len() && ((#[trigger] evs_prev[k0])
                                    matches TuiEvent::Position { entity, .. } && entity == i2 as u32);
                            assert(evs@[k0] == evs_prev[k0]);
                        }
                    }

                    st.global_position = cur;
                    self.snap[ig] = st;
                }
            }
            ig += 1;
        }


        // text block sizes
        let entries_t = self.text_block_log.read(NORMALIZER_READER);
        let ghost pl_t = self.position_log;
        let ghost gl_t = self.global_log;
        let ghost tl_t = self.text_block_log;
        let ghost vl_t = self.visible_log;
        let ghost zl_t = self.zlevel_log;
        let ghost hl_t = self.hierarchy_log;
        let mut dirty_t = bitset_new();
        let mut jt: usize = 0;
        #[verifier::loop_isolation(false)]
        while jt < entries_t.len()
            invariant
                jt <= entries_t@.len(),
                forall|id: u32| bits_of(dirty_t).contains(id) ==> id < n,
                bits_of(dirty_t) =~= entry_ids(entries_t@, n as int, jt as int),
                entries_t@.len() == 0 ==> bits_of(dirty_t) =~= Set::<u32>::empty(),
            decreases entries_t@.len() - jt,
        {
            let id = entries_t[jt].1;
            if (id as usize) < n {
                bitset_add(&mut dirty_t, id);
            }
            proof {
                assert(bits_of(dirty_t) =~= entry_ids(entries_t@, n as int, jt + 1));
            }
            jt += 1;
        }
        proof {
            assert(bits_of(dirty_t) =~= pending_ids(
                old(self).text_block_log.log(),
                old(self).text_block_log.cursors()[NORMALIZER_READER as int],
                n as int,
            ));
        }
        let ghost evs_base_t = evs@.len() as int;
        let ghost snap_base_t = self.snap@;
        let mut it: usize = 0;
        #[verifier::loop_isolation(false)]
        while it < n
            invariant
                it <= n,
                self.scene == old(self).scene,
                self.snap@.len() == n,
                self.snap_rows@.len() == n,
                self.position_log == pl_t,
                self.global_log == gl_t,
                self.text_block_log == tl_t,
                self.visible_log == vl_t,
                self.zlevel_log == zl_t,
                self.hierarchy_log == hl_t,
                self.last_screen == screen0,
                self.backplane == old(self).backplane,
                forall|k: int|
                    0 <= k < evs@.len() ==> event_sound(v0, snap0, rows0, screen, screen0, #[trigger] evs@[k]),
                forall|k: int| 0 <= k < evs@.len() ==> !((#[trigger] evs@[k]) is ScreenSize),
                forall|m: int|
                    0 <= m < n ==> (#[trigger] self.snap@[m]).visible == snap0[m].visible && self.snap@[m].zlevel == snap0[m].zlevel,
                forall|m: int|
                    it <= m < n ==> (#[trigger] self.snap@[m]).text_block == snap0[m].text_block,
                forall|m: int| it <= m < n ==> (#[trigger] self.snap_rows@[m]) == rows0[m],
                forall|i2: int|
                    0 <= i2 < it && bits_of(dirty_t).contains(i2 as u32) && (tb_size(v0.text_block[i2]) != snap0[i2].text_block || tb_rows(v0.text_block[i2]) != snaprows_view(rows0[i2]))
                        ==> exists|k: int|
                        0 <= k < evs@.len() && ((#[trigger] evs@[k]) matches TuiEvent::TextBlock {
                            entity,
                            ..
                        } && entity == i2 as u32),
                forall|i2: int|
                    0 <= i2 < it ==> (#[trigger] self.snap@[i2]).text_block == (if bits_of(
                        dirty_t,
                    ).contains(i2 as u32) && (tb_size(v0.text_block[i2]) != snap0[i2].text_block || tb_rows(v0.text_block[i2]) != snaprows_view(rows0[i2])) {
                        tb_size(v0.text_block[i2])
                    } else {
                        snap0[i2].text_block
                    }),
                forall|i2: int|
                    0 <= i2 < it ==> snaprows_view(#[trigger] self.snap_rows@[i2]) == (if bits_of(
                        dirty_t,
                    ).contains(i2 as u32) && (tb_size(v0.text_block[i2]) != snap0[i2].text_block
                        || tb_rows(v0.text_block[i2]) != snaprows_view(rows0[i2])) {
                        tb_rows(v0.text_block[i2])
                    } else {
                        snaprows_view(rows0[i2])
                    }),
                forall|i2: int|
                    0 <= i2 < n && bits_of(dirty_p).contains(i2 as u32) && v0.position[i2] != snap0[i2].position
                        ==> exists|k: int|
                        0 <= k < evs@.len() && ((#[trigger] evs@[k]) matches TuiEvent::Position {
                            entity,
                            ..
                        } && entity == i2 as u32),
                forall|i2: int|
                    0 <= i2 < n ==> (#[trigger] self.snap@[i2]).position == (if bits_of(
                        dirty_p,
                    ).contains(i2 as u32) && v0.position[i2] != snap0[i2].position {
                        v0.position[i2]
                    } else {
                        snap0[i2].position
                    }),
                forall|i2: int|
                    0 <= i2 < n && bits_of(dirty_g).contains(i2 as u32) && v0.global_position[i2] != snap0[i2].global_position
                        ==> exists|k: int|
                        0 <= k < evs@.len() && ((#[trigger] evs@[k]) matches TuiEvent::GlobalPosition {
                            entity,
                            ..
                        } && entity == i2 as u32),
                forall|i2: int|
                    0 <= i2 < n ==> (#[trigger] self.snap@[i2]).global_position == (if bits_of(
                        dirty_g,
                    ).contains(i2 as u32) && v0.global_position[i2] != snap0[i2].global_position {
                        v0.global_position[i2]
                    } else {
                        snap0[i2].global_position
                    }),
                bits_of(dirty_t) =~= Set::<u32>::empty() ==> evs@.len() == evs_base_t
                    && self.snap@ =~= snap_base_t && self.snap_rows == old(self).snap_rows,
            decreases n - it,
        {
            if bitset_contains(&dirty_t, it as u32) {
                let cur = match self.scene.get_text_block(it as u32) {
                    Some(tb) => Some(Position::new(tb.width, tb.height)),
                    None => None,
                };
                let rows_same = match (self.scene.get_text_block(it as u32), &self.snap_rows[it]) {
                    (Some(tb), Some(sr)) => rows_eq(&tb.rows, sr),
                    (None, None) => true,
                    _ => false,
                };
                proof {
                    assert(self.snap_rows@[it as int] == rows0[it as int]);
                    assert(rows_same == (tb_rows(v0.text_block[it as int]) == snaprows_view(
                        rows0[it as int],
                    )));
                }
                let mut st = self.snap[it];
                if !opt_pos_eq(cur, st.text_block) || !rows_same {
                    let ghost evs_prev = evs@;
                    evs.push(TuiEvent::TextBlock { entity: it as u32, new_size: cur, old_size: st.text_block });
                    proof {
                        let ghost evs_prev2 = evs@;
                        assert forall|i2: int|
                            0 <= i2 < it + 1 && bits_of(dirty_t).contains(i2 as u32) && (tb_size(v0.text_block[i2]) != snap0[i2].text_block || tb_rows(v0.text_block[i2]) != snaprows_view(rows0[i2]))
                            implies exists|k: int|
                            0 <= k < evs@.len() && ((#[trigger] evs@[k]) matches TuiEvent::TextBlock {
                                entity,
                                ..
                            } && entity == i2 as u32) by {
                            if i2 == it as int {
                                assert(((evs@[evs@.len() - 1]) matches TuiEvent::TextBlock { entity, .. }
                                    && entity == i2 as u32));
                            } else {
                                let k0 = choose|k0: int|
                                    0 <= k0 < evs_prev.len() && ((#[trigger] evs_prev[k0])
                                        matches TuiEvent::TextBlock { entity, .. } && entity == i2 as u32);
                                assert(evs@[k0] == evs_prev[k0]);
                            }
                        }
                    }

                    proof {
                        assert forall|i2: int|
                            0 <= i2 < n && bits_of(dirty_p).contains(i2 as u32) && v0.position[i2] != snap0[i2].position
                            implies exists|k: int|
                            0 <= k < evs@.len() && ((#[trigger] evs@[k]) matches TuiEvent::Position {
                                entity,
                                ..
                            } && entity == i2 as u32) by {
                            let k0 = choose|k0: int|
                                0 <= k0 < evs_prev.len() && ((#[trigger] evs_prev[k0])
                                    matches TuiEvent::Position { entity, .. } && entity == i2 as u32);
                            assert(evs@[k0] == evs_prev[k0]);
                        }
                        assert forall|i2: int|
                            0 <= i2 < n && bits_of(dirty_g).contains(i2 as u32) && v0.global_position[i2] != snap0[i2].global_position
                            implies exists|k: int|
                            0 <= k < evs@.len() && ((#[trigger] evs@[k]) matches TuiEvent::GlobalPosition {
                                entity,
                                ..
                            } && entity == i2 as u32) by {
                            let k0 = choose|k0: int|
                                0 <= k0 < evs_prev.len() && ((#[trigger] evs_prev[k0])
                                    matches TuiEvent::GlobalPosition { entity, .. } && entity == i2 as u32);
                            assert(evs@[k0] == evs_prev[k0]);
                        }
                    }

                    st.text_block = cur;
                    self.snap[it] = st;
                    let newrows = match self.scene.get_text_block(it as u32) {
                        Some(tb) => Some(rows_clone(&tb.rows)),
                        None => None,
                    };
                    self.snap_rows[it] = newrows;
                }
            }
            it += 1;
        }
        let ghost rows_after_t = self.snap_rows;


        // explicit visibility
        let entries_v = self.visible_log.read(NORMALIZER_READER);
        let ghost pl_v = self.position_log;
        let ghost gl_v = self.global_log;
        let ghost tl_v = self.text_block_log;
        let ghost vl_v = self.visible_log;
        let ghost zl_v = self.zlevel_log;
        let ghost hl_v = self.hierarchy_log;
        let mut dirty_v = bitset_new();
        let mut jv: usize = 0;
        #[verifier::loop_isolation(false)]
        while jv < entries_v.len()
            invariant
                jv <= entries_v@.len(),
                forall|id: u32| bits_of(dirty_v).contains(id) ==> id < n,
                bits_of(dirty_v) =~= entry_ids(entries_v@, n as int, jv as int),
                entries_v@.len() == 0 ==> bits_of(dirty_v) =~= Set::<u32>::empty(),
            decreases entries_v@.len() - jv,
        {
            let id = entries_v[jv].1;
            if (id as usize) < n {
                bitset_add(&mut dirty_v, id);
            }
            proof {
                assert(bits_of(dirty_v) =~= entry_ids(entries_v@, n as int, jv + 1));
            }
            jv += 1;
        }
        proof {
            assert(bits_of(dirty_v) =~= pending_ids(
                old(self).visible_log.log(),
                old(self).visible_log.cursors()[NORMALIZER_READER as int],
                n as int,
            ));
        }
        let ghost evs_base_v = evs@.len() as int;
        let ghost snap_base_v = self.snap@;
        let mut iv: usize = 0;
        #[verifier::loop_isolation(false)]
        while iv < n
            invariant
                iv <= n,
                self.scene == old(self).scene,
                self.snap@.len() == n,
                self.position_log == pl_v,
                self.global_log == gl_v,
                self.text_block_log == tl_v,
                self.visible_log == vl_v,
                self.zlevel_log == zl_v,
                self.hierarchy_log == hl_v,
                self.snap_rows == rows_after_t,
                self.last_screen == screen0,
                self.backplane == old(self).backplane,
                forall|k: int|
                    0 <= k < evs@.len() ==> event_sound(v0, snap0, rows0, screen, screen0, #[trigger] evs@[k]),
                forall|k: int| 0 <= k < evs@.len() ==> !((#[trigger] evs@[k]) is ScreenSize),
                forall|m: int|
                    0 <= m < n ==> (#[trigger] self.snap@[m]).zlevel == snap0[m].zlevel,
                forall|m: int|
                    iv <= m < n ==> (#[trigger] self.snap@[m]).visible == snap0[m].visible,
                forall|i2: int|
                    0 <= i2 < iv && bits_of(dirty_v).contains(i2 as u32) && v0.visible[i2] != snap0[i2].visible
                        ==> exists|k: int|
                        0 <= k < evs@.len() && ((#[trigger] evs@[k]) matches TuiEvent::Visible {
                            entity,
                            ..
                        } && entity == i2 as u32),
                forall|i2: int|
                    0 <= i2 < iv ==> (#[trigger] self.snap@[i2]).visible == (if bits_of(
                        dirty_v,
                    ).contains(i2 as u32) && v0.visible[i2] != snap0[i2].visible {
                        v0.visible[i2]
                    } else {
                        snap0[i2].visible
                    }),
                forall|i2: int|
                    0 <= i2 < n && bits_of(dirty_p).contains(i2 as u32) && v0.position[i2] != snap0[i2].position
                        ==> exists|k: int|
                        0 <= k < evs@.len() && ((#[trigger] evs@[k]) matches TuiEvent::Position {
                            entity,
                            ..
                        } && entity == i2 as u32),
                forall|i2: int|
                    0 <= i2 < n ==> (#[trigger] self.snap@[i2]).position == (if bits_of(
                        dirty_p,
                    ).contains(i2 as u32) && v0.position[i2] != snap0[i2].position {
                        v0.position[i2]
                    } else {
                        snap0[i2].position
                    }),
                forall|i2: int|
                    0 <= i2 < n && bits_of(dirty_g).contains(i2 as u32) && v0.global_position[i2] != snap0[i2].global_position
                        ==> exists|k: int|
                        0 <= k < evs@.len() && ((#[trigger] evs@[k]) matches TuiEvent::GlobalPosition {
                            entity,
                            ..
                        } && entity == i2 as u32),
                forall|i2: int|
                    0 <= i2 < n ==> (#[trigger] self.snap@[i2]).global_position == (if bits_of(
                        dirty_g,
                    ).contains(i2 as u32) && v0.global_position[i2] != snap0[i2].global_position {
                        v0.global_position[i2]
                    } else {
                        snap0[i2].global_position
                    }),
                forall|i2: int|
                    0 <= i2 < n && bits_of(dirty_t).contains(i2 as u32) && (tb_size(v0.text_block[i2]) != snap0[i2].text_block || tb_rows(v0.text_block[i2]) != snaprows_view(rows0[i2]))
                        ==> exists|k: int|
                        0 <= k < evs@.len() && ((#[trigger] evs@[k]) matches TuiEvent::TextBlock {
                            entity,
                            ..
                        } && entity == i2 as u32),
                forall|i2: int|
                    0 <= i2 < n ==> (#[trigger] self.snap@[i2]).text_block == (if bits_of(
                        dirty_t,
                    ).contains(i2 as u32) && (tb_size(v0.text_block[i2]) != snap0[i2].text_block || tb_rows(v0.text_block[i2]) != snaprows_view(rows0[i2])) {
                        tb_size(v0.text_block[i2])
                    } else {
                        snap0[i2].text_block
                    }),
                forall|i2: int|
                    0 <= i2 < n ==> snaprows_view(#[trigger] self.snap_rows@[i2]) == (if bits_of(
                        dirty_t,
                    ).contains(i2 as u32) && (tb_size(v0.text_block[i2]) != snap0[i2].text_block
                        || tb_rows(v0.text_block[i2]) != snaprows_view(rows0[i2])) {
                        tb_rows(v0.text_block[i2])
                    } else {
                        snaprows_view(rows0[i2])
                    }),
                bits_of(dirty_v) =~= Set::<u32>::empty() ==> evs@.len() == evs_base_v
                    && self.snap@ =~= snap_base_v,
            decreases n - iv,
        {
            if bitset_contains(&dirty_v, iv as u32) {
                let cur = self.scene.get_visible(iv as u32);
                let mut st = self.snap[iv];
                if !opt_bool_eq(cur, st.visible) {
                    let ghost evs_prev = evs@;
                    evs.push(TuiEvent::Visible { entity: iv as u32, new: cur, old: st.visible });
                    proof {
                        let ghost evs_prev2 = evs@;
                        assert forall|i2: int|
                            0 <= i2 < iv + 1 && bits_of(dirty_v).contains(i2 as u32) && v0.visible[i2] != snap0[i2].visible
                            implies exists|k: int|
                            0 <= k < evs@.len() && ((#[trigger] evs@[k]) matches TuiEvent::Visible {
                                entity,
                                ..
                            } && entity == i2 as u32) by {
                            if i2 == iv as int {
                                assert(((evs@[evs@.len() - 1]) matches TuiEvent::Visible { entity, .. }
                                    && entity == i2 as u32));
                            } else {
                                let k0 = choose|k0: int|
                                    0 <= k0 < evs_prev.len() && ((#[trigger] evs_prev[k0])
                                        matches TuiEvent::Visible { entity, .. } && entity == i2 as u32);
                                assert(evs@[k0] == evs_prev[k0]);
                            }
                        }
                    }

                    proof {
                        assert forall|i2: int|
                            0 <= i2 < n && bits_of(dirty_p).contains(i2 as u32) && v0.position[i2] != snap0[i2].position
                            implies exists|k: int|
                            0 <= k < evs@.len() && ((#[trigger] evs@[k]) matches TuiEvent::Position {
                                entity,
                                ..
                            } && entity == i2 as u32) by {
                            let k0 = choose|k0: int|
                                0 <= k0 < evs_prev.len() && ((#[trigger] evs_prev[k0])
                                    matches TuiEvent::Position { entity, .. } && entity == i2 as u32);
                            assert(evs@[k0] == evs_prev[k0]);
                        }
                        assert forall|i2: int|
                            0 <= i2 < n && bits_of(dirty_g).contains(i2 as u32) && v0.global_position[i2] != snap0[i2].global_position
                            implies exists|k: int|
                            0 <= k < evs@.len() && ((#[trigger] evs@[k]) matches TuiEvent::GlobalPosition {
                                entity,
                                ..
                            } && entity == i2 as u32) by {
                            let k0 = choose|k0: int|
                                0 <= k0 < evs_prev.len() && ((#[trigger] evs_prev[k0])
                                    matches TuiEvent::GlobalPosition { entity, .. } && entity == i2 as u32);
                            assert(evs@[k0] == evs_prev[k0]);
                        }
                        assert forall|i2: int|
                            0 <= i2 < n && bits_of(dirty_t).contains(i2 as u32) && (tb_size(v0.text_block[i2]) != snap0[i2].text_block || tb_rows(v0.text_block[i2]) != snaprows_view(rows0[i2]))
                            implies exists|k: int|
                            0 <= k < evs@.len() && ((#[trigger] evs@[k]) matches TuiEvent::TextBlock {
                                entity,
                                ..
                            } && entity == i2 as u32) by {
                            let k0 = choose|k0: int|
                                0 <= k0 < evs_prev.len() && ((#[trigger] evs_prev[k0])
                                    matches TuiEvent::TextBlock { entity, .. } && entity == i2 as u32);
                            assert(evs@[k0] == evs_prev[k0]);
                        }
                    }

                    st.visible = cur;
                    self.snap[iv] = st;
                }
            }
            iv += 1;
        }


        // paint priority
        let entries_z = self.zlevel_log.read(NORMALIZER_READER);
        let ghost pl_z = self.position_log;
        let ghost gl_z = self.global_log;
        let ghost tl_z = self.text_block_log;
        let ghost vl_z = self.visible_log;
        let ghost zl_z = self.zlevel_log;
        let ghost hl_z = self.hierarchy_log;
        let mut dirty_z = bitset_new();
        let mut jz: usize = 0;
        #[verifier::loop_isolation(false)]
        while jz < entries_z.len()
            invariant
                jz <= entries_z@.len(),
                forall|id: u32| bits_of(dirty_z).contains(id) ==> id < n,
                bits_of(dirty_z) =~= entry_ids(entries_z@, n as int, jz as int),
                entries_z@.len() == 0 ==> bits_of(dirty_z) =~= Set::<u32>::empty(),
            decreases entries_z@.len() - jz,
        {
            let id = entries_z[jz].1;
            if (id as usize) < n {
                bitset_add(&mut dirty_z, id);
            }
            proof {
                assert(bits_of(dirty_z) =~= entry_ids(entries_z@, n as int, jz + 1));
            }
            jz += 1;
        }
        proof {
            assert(bits_of(dirty_z) =~= pending_ids(
                old(self).zlevel_log.log(),
                old(self).zlevel_log.cursors()[NORMALIZER_READER as int],
                n as int,
            ));
        }
        let ghost evs_base_z = evs@.len() as int;
        let ghost snap_base_z = self.snap@;
        let mut iz: usize = 0;
        #[verifier::loop_isolation(false)]
        while iz < n
            invariant
                iz <= n,
                self.scene == old(self).scene,
                self.snap@.len() == n,
                self.position_log == pl_z,
                self.global_log == gl_z,
                self.text_block_log == tl_z,
                self.visible_log == vl_z,
                self.zlevel_log == zl_z,
                self.hierarchy_log == hl_z,
                self.snap_rows == rows_after_t,
                self.last_screen == screen0,
                self.backplane == old(self).backplane,
                forall|k: int|
                    0 <= k < evs@.len() ==> event_sound(v0, snap0, rows0, screen, screen0, #[trigger] evs@[k]),
                forall|k: int| 0 <= k < evs@.len() ==> !((#[trigger] evs@[k]) is ScreenSize),
                forall|m: int|
                    iz <= m < n ==> (#[trigger] self.snap@[m]).zlevel == snap0[m].zlevel,
                forall|i2: int|
                    0 <= i2 < iz && bits_of(dirty_z).contains(i2 as u32) && v0.zlevel[i2] != snap0[i2].zlevel
                        ==> exists|k: int|
                        0 <= k < evs@.len() && ((#[trigger] evs@[k]) matches TuiEvent::ZLevel {
                            entity,
                            ..
                        } && entity == i2 as u32),
                forall|i2: int|
                    0 <= i2 < iz ==> (#[trigger] self.snap@[i2]).zlevel == (if bits_of(
                        dirty_z,
                    ).contains(i2 as u32) && v0.zlevel[i2] != snap0[i2].zlevel {
                        v0.zlevel[i2]
                    } else {
                        snap0[i2].zlevel
                    }),
                forall|i2: int|
                    0 <= i2 < n && bits_of(dirty_p).contains(i2 as u32) && v0.position[i2] != snap0[i2].position
                        ==> exists|k: int|
                        0 <= k < evs@.len() && ((#[trigger] evs@[k]) matches TuiEvent::Position {
                            entity,
                            ..
                        } && entity == i2 as u32),
                forall|i2: int|
                    0 <= i2 < n ==> (#[trigger] self.snap@[i2]).position == (if bits_of(
                        dirty_p,
                    ).contains(i2 as u32) && v0.position[i2] != snap0[i2].position {
                        v0.position[i2]
                    } else {
                        snap0[i2].position
                    }),
                forall|i2: int|
                    0 <= i2 < n && bits_of(dirty_g).contains(i2 as u32) && v0.global_position[i2] != snap0[i2].global_position
                        ==> exists|k: int|
                        0 <= k < evs@.len() && ((#[trigger] evs@[k]) matches TuiEvent::GlobalPosition {
                            entity,
                            ..
                        } && entity == i2 as u32),
                forall|i2: int|
                    0 <= i2 < n ==> (#[trigger] self.snap@[i2]).global_position == (if bits_of(
                        dirty_g,
                    ).contains(i2 as u32) && v0.global_position[i2] != snap0[i2].global_position {
                        v0.global_position[i2]
                    } else {
                        snap0[i2].global_position
                    }),
                forall|i2: int|
                    0 <= i2 < n && bits_of(dirty_t).contains(i2 as u32) && (tb_size(v0.text_block[i2]) != snap0[i2].text_block || tb_rows(v0.text_block[i2]) != snaprows_view(rows0[i2]))
                        ==> exists|k: int|
                        0 <= k < evs@.len() && ((#[trigger] evs@[k]) matches TuiEvent::TextBlock {
                            entity,
                            ..
                        } && entity == i2 as u32),
                forall|i2: int|
                    0 <= i2 < n ==> (#[trigger] self.snap@[i2]).text_block == (if bits_of(
                        dirty_t,
                    ).contains(i2 as u32) && (tb_size(v0.text_block[i2]) != snap0[i2].text_block || tb_rows(v0.text_block[i2]) != snaprows_view(rows0[i2])) {
                        tb_size(v0.text_block[i2])
                    } else {
                        snap0[i2].text_block
                    }),
                forall|i2: int|
                    0 <= i2 < n ==> snaprows_view(#[trigger] self.snap_rows@[i2]) == (if bits_of(
                        dirty_t,
                    ).contains(i2 as u32) && (tb_size(v0.text_block[i2]) != snap0[i2].text_block
                        || tb_rows(v0.text_block[i2]) != snaprows_view(rows0[i2])) {
                        tb_rows(v0.text_block[i2])
                    } else {
                        snaprows_view(rows0[i2])
                    }),
                forall|i2: int|
                    0 <= i2 < n && bits_of(dirty_v).contains(i2 as u32) && v0.visible[i2] != snap0[i2].visible
                        ==> exists|k: int|
                        0 <= k < evs@.len() && ((#[trigger] evs@[k]) matches TuiEvent::Visible {
                            entity,
                            ..
                        } && entity == i2 as u32),
                forall|i2: int|
                    0 <= i2 < n ==> (#[trigger] self.snap@[i2]).visible == (if bits_of(
                        dirty_v,
                    ).contains(i2 as u32) && v0.visible[i2] != snap0[i2].visible {
                        v0.visible[i2]
                    } else {
                        snap0[i2].visible
                    }),
                bits_of(dirty_z) =~= Set::<u32>::empty() ==> evs@.len() == evs_base_z
                    && self.snap@ =~= snap_base_z,
            decreases n - iz,
        {
            if bitset_contains(&dirty_z, iz as u32) {
                let cur = self.scene.get_zlevel(iz as u32);
                let mut st = self.snap[iz];
                if !opt_i64_eq(cur, st.zlevel) {
                    let ghost evs_prev = evs@;
                    evs.push(TuiEvent::ZLevel { entity: iz as u32, new: cur, old: st.zlevel });
                    proof {
                        let ghost evs_prev2 = evs@;
                        assert forall|i2: int|
                            0 <= i2 < iz + 1 && bits_of(dirty_z).contains(i2 as u32) && v0.zlevel[i2] != snap0[i2].zlevel
                            implies exists|k: int|
                            0 <= k < evs@.len() && ((#[trigger] evs@[k]) matches TuiEvent::ZLevel {
                                entity,
                                ..
                            } && entity == i2 as u32) by {
                            if i2 == iz as int {
                                assert(((evs@[evs@.len() - 1]) matches TuiEvent::ZLevel { entity, .. }
                                    && entity == i2 as u32));
                            } else {
                                let k0 = choose|k0: int|
                                    0 <= k0 < evs_prev.len() && ((#[trigger] evs_prev[k0])
                                        matches TuiEvent::ZLevel { entity, .. } && entity == i2 as u32);
                                assert(evs@[k0] == evs_prev[k0]);
                            }
                        }
                    }

                    proof {
                        assert forall|i2: int|
                            0 <= i2 < n && bits_of(dirty_p).contains(i2 as u32) && v0.position[i2] != snap0[i2].position
                            implies exists|k: int|
                            0 <= k < evs@.len() && ((#[trigger] evs@[k]) matches TuiEvent::Position {
                                entity,
                                ..
                            } && entity == i2 as u32) by {
                            let k0 = choose|k0: int|
                                0 <= k0 < evs_prev.len() && ((#[trigger] evs_prev[k0])
                                    matches TuiEvent::Position { entity, .. } && entity == i2 as u32);
                            assert(evs@[k0] == evs_prev[k0]);
                        }
                        assert forall|i2: int|
                            0 <= i2 < n && bits_of(dirty_g).contains(i2 as u32) && v0.global_position[i2] != snap0[i2].global_position
                            implies exists|k: int|
                            0 <= k < evs@.len() && ((#[trigger] evs@[k]) matches TuiEvent::GlobalPosition {
                                entity,
                                ..
                            } && entity == i2 as u32) by {
                            let k0 = choose|k0: int|
                                0 <= k0 < evs_prev.len() && ((#[trigger] evs_prev[k0])
                                    matches TuiEvent::GlobalPosition { entity, .. } && entity == i2 as u32);
                            assert(evs@[k0] == evs_prev[k0]);
                        }
                        assert forall|i2: int|
                            0 <= i2 < n && bits_of(dirty_t).contains(i2 as u32) && (tb_size(v0.text_block[i2]) != snap0[i2].text_block || tb_rows(v0.text_block[i2]) != snaprows_view(rows0[i2]))
                            implies exists|k: int|
                            0 <= k < evs@.len() && ((#[trigger] evs@[k]) matches TuiEvent::TextBlock {
                                entity,
                                ..
                            } && entity == i2 as u32) by {
                            let k0 = choose|k0: int|
                                0 <= k0 < evs_prev.len() && ((#[trigger] evs_prev[k0])
                                    matches TuiEvent::TextBlock { entity, .. } && entity == i2 as u32);
                            assert(evs@[k0] == evs_prev[k0]);
                        }
                        assert forall|i2: int|
                            0 <= i2 < n && bits_of(dirty_v).contains(i2 as u32) && v0.visible[i2] != snap0[i2].visible
                            implies exists|k: int|
                            0 <= k < evs@.len() && ((#[trigger] evs@[k]) matches TuiEvent::Visible {
                                entity,
                                ..
                            } && entity == i2 as u32) by {
                            let k0 = choose|k0: int|
                                0 <= k0 < evs_prev.len() && ((#[trigger] evs_prev[k0])
                                    matches TuiEvent::Visible { entity, .. } && entity == i2 as u32);
                            assert(evs@[k0] == evs_prev[k0]);
                        }
                    }

                    st.zlevel = cur;
                    self.snap[iz] = st;
                }
            }
            iz += 1;
        }

        let ghost snap_after_z = self.snap@;
        // structural changes
        let hentries = self.hierarchy_log.read(NORMALIZER_READER);
        proof {
            assert(hentries@ =~= old(self).hierarchy_log.log().subrange(
                old(self).hierarchy_log.cursors()[NORMALIZER_READER as int],
                old(self).hierarchy_log.log().len() as int,
            ));
        }
        let mut jh: usize = 0;
        let ghost evs_base_h = evs@.len() as int;
        #[verifier::loop_isolation(false)]
        while jh < hentries.len()
            invariant
                jh <= hentries@.len(),
                self.scene == old(self).scene,
                self.snap@.len() == n,
                self.snap_rows == rows_after_t,
                forall|i2: int|
                    0 <= i2 < n && bits_of(dirty_p).contains(i2 as u32) && v0.position[i2] != snap0[i2].position
                        ==> exists|k: int|
                        0 <= k < evs@.len() && ((#[trigger] evs@[k]) matches TuiEvent::Position {
                            entity,
                            ..
                        } && entity == i2 as u32),
                forall|i2: int|
                    0 <= i2 < n && bits_of(dirty_g).contains(i2 as u32) && v0.global_position[i2] != snap0[i2].global_position
                        ==> exists|k: int|
                        0 <= k < evs@.len() && ((#[trigger] evs@[k]) matches TuiEvent::GlobalPosition {
                            entity,
                            ..
                        } && entity == i2 as u32),
                forall|i2: int|
                    0 <= i2 < n && bits_of(dirty_t).contains(i2 as u32) && (tb_size(v0.text_block[i2]) != snap0[i2].text_block || tb_rows(v0.text_block[i2]) != snaprows_view(rows0[i2]))
                        ==> exists|k: int|
                        0 <= k < evs@.len() && ((#[trigger] evs@[k]) matches TuiEvent::TextBlock {
                            entity,
                            ..
                        } && entity == i2 as u32),
                forall|i2: int|
                    0 <= i2 < n && bits_of(dirty_v).contains(i2 as u32) && v0.visible[i2] != snap0[i2].visible
                        ==> exists|k: int|
                        0 <= k < evs@.len() && ((#[trigger] evs@[k]) matches TuiEvent::Visible {
                            entity,
                            ..
                        } && entity == i2 as u32),
                forall|i2: int|
                    0 <= i2 < n && bits_of(dirty_z).contains(i2 as u32) && v0.zlevel[i2] != snap0[i2].zlevel
                        ==> exists|k: int|
                        0 <= k < evs@.len() && ((#[trigger] evs@[k]) matches TuiEvent::ZLevel {
                            entity,
                            ..
                        } && entity == i2 as u32),
                self.snap@ == snap_after_z,
                self.last_screen == screen0,
                self.backplane == old(self).backplane,
                forall|k: int|
                    0 <= k < evs@.len() ==> event_sound(v0, snap0, rows0, screen, screen0, #[trigger] evs@[k]),
                forall|k: int| 0 <= k < evs@.len() ==> !((#[trigger] evs@[k]) is ScreenSize),
                forall|k2: int|
                    0 <= k2 < jh ==> exists|k: int|
                        0 <= k < evs@.len() && (#[trigger] evs@[k]) == (match #[trigger] hentries@[k2] {
                            HierarchyEvent::Modified(x) => TuiEvent::HierarchyModified(x),
                            HierarchyEvent::Removed(x) => TuiEvent::HierarchyRemoved(x),
                        }),
                hentries@.len() == 0 ==> evs@.len() == evs_base_h,
            decreases hentries@.len() - jh,
        {
let ghost evs_prev = evs@;
            match hentries[jh] {
                HierarchyEvent::Modified(x) => {
                    evs.push(TuiEvent::HierarchyModified(x));
                },
                HierarchyEvent::Removed(x) => {
                    evs.push(TuiEvent::HierarchyRemoved(x));
                },
            }
            proof {
                assert forall|k2: int| 0 <= k2 < jh + 1 implies exists|k: int|
                    0 <= k < evs@.len() && (#[trigger] evs@[k]) == (match #[trigger] hentries@[k2] {
                        HierarchyEvent::Modified(x) => TuiEvent::HierarchyModified(x),
                        HierarchyEvent::Removed(x) => TuiEvent::HierarchyRemoved(x),
                    }) by {
                    if k2 == jh as int {
                        assert(evs@[evs@.len() - 1] == (match hentries@[k2] {
                            HierarchyEvent::Modified(x) => TuiEvent::HierarchyModified(x),
                            HierarchyEvent::Removed(x) => TuiEvent::HierarchyRemoved(x),
                        }));
                    } else {
                        let k0 = choose|k0: int|
                            0 <= k0 < evs_prev.len() && (#[trigger] evs_prev[k0]) == (
                            match hentries@[k2] {
                                HierarchyEvent::Modified(x) => TuiEvent::HierarchyModified(x),
                                HierarchyEvent::Removed(x) => TuiEvent::HierarchyRemoved(x),
                            });
                        assert(evs@[k0] == evs_prev[k0]);
                    }
                }
            }
                        proof {
                assert forall|i2: int|
                    0 <= i2 < n && bits_of(dirty_p).contains(i2 as u32) && v0.position[i2] != snap0[i2].position
                    implies exists|k: int|
                    0 <= k < evs@.len() && ((#[trigger] evs@[k]) matches TuiEvent::Position {
                        entity,
                        ..
                    } && entity == i2 as u32) by {
                    let k0 = choose|k0: int|
                        0 <= k0 < evs_prev.len() && ((#[trigger] evs_prev[k0])
                            matches TuiEvent::Position { entity, .. } && entity == i2 as u32);
                    assert(evs@[k0] == evs_prev[k0]);
                }
                assert forall|i2: int|
                    0 <= i2 < n && bits_of(dirty_g).contains(i2 as u32) && v0.global_position[i2] != snap0[i2].global_position
                    implies exists|k: int|
                    0 <= k < evs@.len() && ((#[trigger] evs@[k]) matches TuiEvent::GlobalPosition {
                        entity,
                        ..
                    } && entity == i2 as u32) by {
                    let k0 = choose|k0: int|
                        0 <= k0 < evs_prev.len() && ((#[trigger] evs_prev[k0])
                            matches TuiEvent::GlobalPosition { entity, .. } && entity == i2 as u32);
                    assert(evs@[k0] == evs_prev[k0]);
                }
                assert forall|i2: int|
                    0 <= i2 < n && bits_of(dirty_t).contains(i2 as u32) && (tb_size(v0.text_block[i2]) != snap0[i2].text_block || tb_rows(v0.text_block[i2]) != snaprows_view(rows0[i2]))
                    implies exists|k: int|
                    0 <= k < evs@.len() && ((#[trigger] evs@[k]) matches TuiEvent::TextBlock {
                        entity,
                        ..
                    } && entity == i2 as u32) by {
                    let k0 = choose|k0: int|
                        0 <= k0 < evs_prev.len() && ((#[trigger] evs_prev[k0])
                            matches TuiEvent::TextBlock { entity, .. } && entity == i2 as u32);
                    assert(evs@[k0] == evs_prev[k0]);
                }
                assert forall|i2: int|
                    0 <= i2 < n && bits_of(dirty_v).contains(i2 as u32) && v0.visible[i2] != snap0[i2].visible
                    implies exists|k: int|
                    0 <= k < evs@.len() && ((#[trigger] evs@[k]) matches TuiEvent::Visible {
                        entity,
                        ..
                    } && entity == i2 as u32) by {
                    let k0 = choose|k0: int|
                        0 <= k0 < evs_prev.len() && ((#[trigger] evs_prev[k0])
                            matches TuiEvent::Visible { entity, .. } && entity == i2 as u32);
                    assert(evs@[k0] == evs_prev[k0]);
                }
                assert forall|i2: int|
                    0 <= i2 < n && bits_of(dirty_z).contains(i2 as u32) && v0.zlevel[i2] != snap0[i2].zlevel
                    implies exists|k: int|
                    0 <= k < evs@.len() && ((#[trigger] evs@[k]) matches TuiEvent::ZLevel {
                        entity,
                        ..
                    } && entity == i2 as u32) by {
                    let k0 = choose|k0: int|
                        0 <= k0 < evs_prev.len() && ((#[trigger] evs_prev[k0])
                            matches TuiEvent::ZLevel { entity, .. } && entity == i2 as u32);
                    assert(evs@[k0] == evs_prev[k0]);
                }
            }
            jh += 1;
        }

        // terminal size
        let ghost evs_pre_screen = evs@;
        let ghost evs_prev = evs@;
        if !(screen.width == self.last_screen.width && screen.height == self.last_screen.height) {
            evs.push(TuiEvent::ScreenSize { new: screen, old: self.last_screen });
            proof {
                assert forall|i2: int|
                    0 <= i2 < n && bits_of(dirty_p).contains(i2 as u32) && v0.position[i2] != snap0[i2].position
                    implies exists|k: int|
                    0 <= k < evs@.len() && ((#[trigger] evs@[k]) matches TuiEvent::Position {
                        entity,
                        ..
                    } && entity == i2 as u32) by {
                    let k0 = choose|k0: int|
                        0 <= k0 < evs_prev.len() && ((#[trigger] evs_prev[k0])
                            matches TuiEvent::Position { entity, .. } && entity == i2 as u32);
                    assert(evs@[k0] == evs_prev[k0]);
                }
                assert forall|i2: int|
                    0 <= i2 < n && bits_of(dirty_g).contains(i2 as u32) && v0.global_position[i2] != snap0[i2].global_position
                    implies exists|k: int|
                    0 <= k < evs@.len() && ((#[trigger] evs@[k]) matches TuiEvent::GlobalPosition {
                        entity,
                        ..
                    } && entity == i2 as u32) by {
                    let k0 = choose|k0: int|
                        0 <= k0 < evs_prev.len() && ((#[trigger] evs_prev[k0])
                            matches TuiEvent::GlobalPosition { entity, .. } && entity == i2 as u32);
                    assert(evs@[k0] == evs_prev[k0]);
                }
                assert forall|i2: int|
                    0 <= i2 < n && bits_of(dirty_t).contains(i2 as u32) && (tb_size(v0.text_block[i2]) != snap0[i2].text_block || tb_rows(v0.text_block[i2]) != snaprows_view(rows0[i2]))
                    implies exists|k: int|
                    0 <= k < evs@.len() && ((#[trigger] evs@[k]) matches TuiEvent::TextBlock {
                        entity,
                        ..
                    } && entity == i2 as u32) by {
                    let k0 = choose|k0: int|
                        0 <= k0 < evs_prev.len() && ((#[trigger] evs_prev[k0])
                            matches TuiEvent::TextBlock { entity, .. } && entity == i2 as u32);
                    assert(evs@[k0] == evs_prev[k0]);
                }
                assert forall|i2: int|
                    0 <= i2 < n && bits_of(dirty_v).contains(i2 as u32) && v0.visible[i2] != snap0[i2].visible
                    implies exists|k: int|
                    0 <= k < evs@.len() && ((#[trigger] evs@[k]) matches TuiEvent::Visible {
                        entity,
                        ..
                    } && entity == i2 as u32) by {
                    let k0 = choose|k0: int|
                        0 <= k0 < evs_prev.len() && ((#[trigger] evs_prev[k0])
                            matches TuiEvent::Visible { entity, .. } && entity == i2 as u32);
                    assert(evs@[k0] == evs_prev[k0]);
                }
                assert forall|i2: int|
                    0 <= i2 < n && bits_of(dirty_z).contains(i2 as u32) && v0.zlevel[i2] != snap0[i2].zlevel
                    implies exists|k: int|
                    0 <= k < evs@.len() && ((#[trigger] evs@[k]) matches TuiEvent::ZLevel {
                        entity,
                        ..
                    } && entity == i2 as u32) by {
                    let k0 = choose|k0: int|
                        0 <= k0 < evs_prev.len() && ((#[trigger] evs_prev[k0])
                            matches TuiEvent::ZLevel { entity, .. } && entity == i2 as u32);
                    assert(evs@[k0] == evs_prev[k0]);
                }
            }

            proof {
                assert(evs@[evs@.len() - 1] is ScreenSize);
            }
        } else {
            proof {
                assert(screen == self.last_screen);
            }
        }
        proof {
            let ghost cur0 = old(self).hierarchy_log.cursors()[NORMALIZER_READER as int];
            assert forall|k2: int|
                cur0 <= k2 < old(self).hierarchy_log.log().len() implies exists|k: int|
                0 <= k < evs@.len() && (#[trigger] evs@[k]) == (match #[trigger] old(
                    self,
                ).hierarchy_log.log()[k2] {
                    HierarchyEvent::Modified(x) => TuiEvent::HierarchyModified(x),
                    HierarchyEvent::Removed(x) => TuiEvent::HierarchyRemoved(x),
                }) by {
                let idx = k2 - cur0;
                assert(hentries@[idx] == old(self).hierarchy_log.log()[k2]);
                let k0 = choose|k0: int|
                    0 <= k0 < evs_prev.len() && (#[trigger] evs_prev[k0]) == (match hentries@[idx] {
                        HierarchyEvent::Modified(x) => TuiEvent::HierarchyModified(x),
                        HierarchyEvent::Removed(x) => TuiEvent::HierarchyRemoved(x),
                    });
                assert(evs@[k0] == evs_prev[k0]);
            }
        }
        self.last_screen = screen;
        evs
    }
}

} // verus!
