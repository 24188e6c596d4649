//! The compositor and diff renderer. When any UI event arrives, the whole
//! visible forest is repainted into a fresh buffer (honouring paint
//! priority, later nodes winning ties), absolute positions are recomputed
//! ancestors first, and the buffer is diffed cell by cell against the
//! retained frame so only genuinely changed cells are written out. Out-of-
//! range geometry is a defined outcome, not a fault: positions saturate at
//! the arithmetic cap and painting clips to the screen rectangle.
use vstd::prelude::*;
use crate::components::{Position, MAX_EXTENT, MAX_SCREEN};
use crate::dirty::{bitset_add, bitset_contains, bitset_is_empty, bitset_new, bits_of};
use crate::events::{TermOp, TuiError, TuiEvent};
use crate::journal::ChangeKind;
use crate::scene::{SceneView, MAX_GLOBAL};
use crate::tui::Tui;

verus! {

/// Paint priority of the background.
pub const BACKGROUND_Z: i64 = -100;

/// The character grid of a frame buffer.
pub open spec fn bp_view(bp: Seq<Vec<char>>) -> Seq<Seq<char>> {
    bp.map_values(|r: Vec<char>| r@)
}

/// A blank grid of the given size.
pub open spec fn blank_grid(w: int, h: int) -> Seq<Seq<char>> {
    Seq::new(h as nat, |y: int| Seq::new(w as nat, |x: int| ' '))
}

/// The row-blanking operations issued when the screen is resized.
pub open spec fn blank_ops(w: int, h: int) -> Seq<TermOp> {
    Seq::new(h as nat, |y: int| TermOp::BlankRow { row: y as i64, width: w as i64 })
}

/// A one-cell write at (y, x).
pub open spec fn put_op(y: int, x: int, c: char) -> TermOp {
    TermOp::Put { row: y as i64, col: x as i64, ch: c }
}

/// The writes for one row: one `Put` per cell whose character changed, in
/// column order, over the first `upto` columns.
pub open spec fn diff_row(oldr: Seq<char>, newr: Seq<char>, y: int, upto: int) -> Seq<TermOp>
    decreases upto,
{
    if upto <= 0 {
        Seq::empty()
    } else if oldr[upto - 1] != newr[upto - 1] {
        diff_row(oldr, newr, y, upto - 1).push(put_op(y, upto - 1, newr[upto - 1]))
    } else {
        diff_row(oldr, newr, y, upto - 1)
    }
}

/// The writes for the first `upto` rows, row-major.
pub open spec fn diff_upto(oldb: Seq<Seq<char>>, newb: Seq<Seq<char>>, w: int, upto: int) -> Seq<TermOp>
    decreases upto,
{
    if upto <= 0 {
        Seq::empty()
    } else {
        diff_upto(oldb, newb, w, upto - 1) + diff_row(oldb[upto - 1], newb[upto - 1], upto - 1, w)
    }
}

/// Every write the diff of two equally-sized buffers emits.
pub open spec fn diff_ops(oldb: Seq<Seq<char>>, newb: Seq<Seq<char>>, w: int, h: int) -> Seq<TermOp> {
    diff_upto(oldb, newb, w, h)
}

/// Diffing a buffer against itself emits nothing: the idempotence at the
/// heart of the renderer.
pub proof fn lemma_diff_self_row(r: Seq<char>, y: int, upto: int)
    ensures
        diff_row(r, r, y, upto) =~= Seq::<TermOp>::empty(),
    decreases upto,
{
    if upto > 0 {
        lemma_diff_self_row(r, y, upto - 1);
    }
}

/// Diffing equal buffers emits nothing.
pub proof fn lemma_diff_self(b1: Seq<Seq<char>>, b2: Seq<Seq<char>>, w: int, h: int)
    requires
        forall|y: int| 0 <= y < h ==> b1[y] == b2[y],
    ensures
        diff_ops(b1, b2, w, h) =~= Seq::<TermOp>::empty(),
    decreases h,
{
    if h > 0 {
        lemma_diff_self(b1, b2, w, h - 1);
        lemma_diff_self_row(b1[h - 1], h - 1, w);
        assert(diff_upto(b1, b2, w, h) =~= diff_upto(b1, b2, w, h - 1) + diff_row(
            b1[h - 1],
            b2[h - 1],
            h - 1,
            w,
        ));
    }
}

/// Diff minimality: when two buffers differ in exactly one cell, exactly
/// one write is emitted, carrying that cell's new character.
pub proof fn lemma_diff_single_cell(
    b1: Seq<Seq<char>>,
    b2: Seq<Seq<char>>,
    w: int,
    h: int,
    cy: int,
    cx: int,
)
    requires
        0 <= cy < h,
        0 <= cx < w,
        forall|y: int| 0 <= y < h ==> (#[trigger] b1[y]).len() >= w && b2[y].len() >= w,
        forall|y: int, x: int|
            0 <= y < h && 0 <= x < w && !(y == cy && x == cx) ==> (#[trigger] b1[y][x]) == b2[y][x],
        b1[cy][cx] != b2[cy][cx],
    ensures
        diff_ops(b1, b2, w, h) =~= seq![put_op(cy, cx, b2[cy][cx])],
{
    lemma_diff_single_row(b1[cy], b2[cy], cy, w, cx);
    assert forall|y: int| 0 <= y < h && y != cy implies diff_row(b1[y], b2[y], y, w)
        =~= Seq::<TermOp>::empty() by {
        lemma_diff_eq_row(b1[y], b2[y], y, w);
    }
    lemma_diff_concat(b1, b2, w, h, cy);
}

proof fn lemma_diff_eq_row(r1: Seq<char>, r2: Seq<char>, y: int, upto: int)
    requires
        forall|x: int| 0 <= x < upto ==> (#[trigger] r1[x]) == r2[x],
    ensures
        diff_row(r1, r2, y, upto) =~= Seq::<TermOp>::empty(),
    decreases upto,
{
    if upto > 0 {
        lemma_diff_eq_row(r1, r2, y, upto - 1);
    }
}

proof fn lemma_diff_single_row(r1: Seq<char>, r2: Seq<char>, y: int, upto: int, cx: int)
    requires
        0 <= cx < upto,
        forall|x: int| 0 <= x < upto && x != cx ==> (#[trigger] r1[x]) == r2[x],
        r1[cx] != r2[cx],
    ensures
        diff_row(r1, r2, y, upto) =~= seq![put_op(y, cx, r2[cx])],
    decreases upto,
{
    if cx == upto - 1 {
        lemma_diff_eq_row(r1, r2, y, upto - 1);
        assert(diff_row(r1, r2, y, upto - 1) =~= Seq::<TermOp>::empty());
        assert(diff_row(r1, r2, y, upto) == diff_row(r1, r2, y, upto - 1).push(
            put_op(y, upto - 1, r2[upto - 1]),
        ));
    } else {
        lemma_diff_single_row(r1, r2, y, upto - 1, cx);
        assert(diff_row(r1, r2, y, upto) == diff_row(r1, r2, y, upto - 1));
    }
}

proof fn lemma_diff_concat(b1: Seq<Seq<char>>, b2: Seq<Seq<char>>, w: int, h: int, cy: int)
    requires
        0 <= cy < h,
        forall|y: int|
            0 <= y < h && y != cy ==> diff_row(#[trigger] b1[y], b2[y], y, w)
                =~= Seq::<TermOp>::empty(),
    ensures
        diff_upto(b1, b2, w, h) =~= diff_row(b1[cy], b2[cy], cy, w),
    decreases h,
{
    if h - 1 == cy {
        lemma_diff_all_empty(b1, b2, w, h - 1, cy);
    } else {
        lemma_diff_concat(b1, b2, w, h - 1, cy);
    }
}

proof fn lemma_diff_all_empty(b1: Seq<Seq<char>>, b2: Seq<Seq<char>>, w: int, h: int, cy: int)
    requires
        forall|y: int|
            0 <= y < h && y != cy ==> diff_row(#[trigger] b1[y], b2[y], y, w)
                =~= Seq::<TermOp>::empty(),
        cy >= h,
    ensures
        diff_upto(b1, b2, w, h) =~= Seq::<TermOp>::empty(),
    decreases h,
{
    if h > 0 {
        lemma_diff_all_empty(b1, b2, w, h - 1, cy);
    }
}

/// The screen height as a count.
fn sh0(s: crate::components::ScreenSize) -> (r: usize)
    requires
        0 <= s.height <= MAX_SCREEN,
    ensures
        r == s.height,
{
    s.height as usize
}

/// The screen width as a count.
fn sw0(s: crate::components::ScreenSize) -> (r: usize)
    requires
        0 <= s.width <= MAX_SCREEN,
    ensures
        r == s.width,
{
    s.width as usize
}


/// The nodes this frame's events mark for repaint: every node named by a
/// node event, indices out of range ignored.
pub open spec fn repaint_upto(n: int, evs: Seq<TuiEvent>, k: int) -> Set<u32>
    decreases k,
{
    if k <= 0 {
        Set::empty()
    } else {
        let prev = repaint_upto(n, evs, k - 1);
        match evs[k - 1] {
            TuiEvent::Position { entity, .. } => if entity < n { prev.insert(entity) } else { prev },
            TuiEvent::TextBlock { entity, .. } => if entity < n { prev.insert(entity) } else { prev },
            TuiEvent::Visible { entity, .. } => if entity < n { prev.insert(entity) } else { prev },
            TuiEvent::ZLevel { entity, .. } => if entity < n { prev.insert(entity) } else { prev },
            TuiEvent::HierarchyModified(x) => if x < n { prev.insert(x) } else { prev },
            TuiEvent::HierarchyRemoved(x) => if x < n { prev.insert(x) } else { prev },
            _ => prev,
        }
    }
}

/// All the nodes this frame's events mark for repaint.
pub open spec fn repaint_set(n: int, evs: Seq<TuiEvent>) -> Set<u32> {
    repaint_upto(n, evs, evs.len() as int)
}

/// A derived coordinate saturated at the stored range: geometry beyond the
/// cap is far off every screen, so clamping is invisible and keeps the
/// arithmetic in bounds.
pub open spec fn clamp_coord(a: int) -> int {
    if a < -MAX_GLOBAL {
        -MAX_GLOBAL as int
    } else if a > MAX_GLOBAL {
        MAX_GLOBAL as int
    } else {
        a
    }
}

/// Whether this frame's events report a terminal resize.
pub open spec fn has_resize_ev(evs: Seq<TuiEvent>) -> bool {
    exists|k: int| 0 <= k < evs.len() && (#[trigger] evs[k]) is ScreenSize
}

/// The buffer this frame's writes are diffed against: the retained frame,
/// or a blank grid when the screen was resized or the retained frame does
/// not match the screen.
pub open spec fn render_base(t: Tui, evs: Seq<TuiEvent>) -> Seq<Seq<char>> {
    if has_resize_ev(evs) || !t.backplane_ok() {
        blank_grid(t.last_screen.width as int, t.last_screen.height as int)
    } else {
        bp_view(t.backplane@)
    }
}

fn clamp_c(a: i64) -> (r: i64)
    ensures
        r == clamp_coord(a as int),
        -MAX_GLOBAL <= r <= MAX_GLOBAL,
{
    if a < -MAX_GLOBAL {
        -MAX_GLOBAL
    } else if a > MAX_GLOBAL {
        MAX_GLOBAL
    } else {
        a
    }
}

/// The nodes hidden from painting: explicitly hidden ones and every node
/// below one, read off along the topological order. A root parent that is
/// explicitly hidden hides its children even though roots are not listed.
pub open spec fn hidden_upto(v: SceneView, order: Seq<u32>, k: int) -> Set<u32>
    decreases k,
{
    if k <= 0 {
        Set::empty()
    } else {
        let prev = hidden_upto(v, order, k - 1);
        let x = order[k - 1];
        let p = v.parent[x as int].unwrap();
        let parent_hidden = if v.parent[p as int] is Some {
            prev.contains(p)
        } else {
            v.visible[p as int] == Some(false)
        };
        if v.visible[x as int] == Some(false) || parent_hidden {
            prev.insert(x)
        } else {
            prev
        }
    }
}

/// All the nodes the compositor skips.
pub open spec fn hidden_set(v: SceneView) -> Set<u32> {
    hidden_upto(v, v.order, v.order.len() as int)
}

/// A listed node the renderer would process: not hidden, and carrying both
/// a position and a text block.
pub open spec fn proc_node(v: SceneView, x: int) -> bool {
    &&& !hidden_set(v).contains(x as u32)
    &&& v.position[x] is Some
    &&& v.text_block[x] is Some
}

/// A node the renderer processes: parented, not hidden, and carrying both a
/// position and a text block.
pub open spec fn rendered(v: SceneView, x: int) -> bool {
    v.parent[x] is Some && proc_node(v, x)
}

/// The absolute position the renderer derives for a node: its local offset,
/// shifted by the parent's stored absolute position if the parent has one,
/// saturated at the stored range. Stated over the final store: every parent
/// is refreshed before its children, so the stored parent value is the
/// fresh one.
pub open spec fn global_formula(v: SceneView, x: int) -> Position {
    let loc = v.position[x].unwrap();
    match v.global_position[v.parent[x].unwrap() as int] {
        Some(pg) => Position {
            x: clamp_coord(pg.x + loc.x) as i64,
            y: clamp_coord(pg.y + loc.y) as i64,
        },
        None => loc,
    }
}


proof fn lemma_hidden_members(v: SceneView, order: Seq<u32>, k: int)
    requires
        0 <= k <= order.len(),
    ensures
        forall|x: u32|
            #[trigger] hidden_upto(v, order, k).contains(x) ==> exists|m: int|
                0 <= m < k && order[m] == x,
    decreases k,
{
    if k > 0 {
        lemma_hidden_members(v, order, k - 1);
        assert forall|x: u32| #[trigger] hidden_upto(v, order, k).contains(x)
            implies exists|m: int| 0 <= m < k && order[m] == x by {
            if hidden_upto(v, order, k - 1).contains(x) {
                let m0 = choose|m0: int| 0 <= m0 < k - 1 && order[m0] == x;
                assert(0 <= m0 < k && order[m0] == x);
            } else {
                assert(order[k - 1] == x && 0 <= k - 1 < k);
            }
        }
    }
}

proof fn lemma_hidden_stable(v: SceneView, order: Seq<u32>, k: int, j: int)
    requires
        order.no_duplicates(),
        0 <= k < order.len(),
        k + 1 <= j <= order.len(),
    ensures
        hidden_upto(v, order, j).contains(order[k]) == hidden_upto(v, order, k + 1).contains(
            order[k],
        ),
    decreases j,
{
    if j > k + 1 {
        lemma_hidden_stable(v, order, k, j - 1);
        assert(order[j - 1] != order[k]);
    }
}

/// The hidden set satisfies its defining recurrence pointwise: a listed
/// node is hidden exactly when it is explicitly hidden, or its parent is a
/// hidden listed node, or its parent is an explicitly hidden root.
proof fn lemma_hidden_rec(v: SceneView, order: Seq<u32>)
    requires
        crate::scene::topo_sorted(v.parent, order),
    ensures
        forall|k: int|
            0 <= k < order.len() ==> {
                let p = v.parent[#[trigger] order[k] as int].unwrap();
                hidden_upto(v, order, order.len() as int).contains(order[k]) == (
                v.visible[order[k] as int] == Some(false) || (if v.parent[p as int] is Some {
                    hidden_upto(v, order, order.len() as int).contains(p)
                } else {
                    v.visible[p as int] == Some(false)
                }))
            },
        forall|x: u32|
            #[trigger] hidden_upto(v, order, order.len() as int).contains(x) ==> order.contains(x),
{
    let full = hidden_upto(v, order, order.len() as int);
    lemma_hidden_members(v, order, order.len() as int);
    assert forall|x: u32| #[trigger] full.contains(x) implies order.contains(x) by {
        let m = choose|m: int| 0 <= m < order.len() && order[m] == x;
        assert(order[m] == x);
    }
    assert forall|k: int| 0 <= k < order.len() implies {
        let p = v.parent[#[trigger] order[k] as int].unwrap();
        full.contains(order[k]) == (v.visible[order[k] as int] == Some(false) || (if v.parent[p as int]
            is Some {
            full.contains(p)
        } else {
            v.visible[p as int] == Some(false)
        }))
    } by {
        let x = order[k];
        let p = v.parent[x as int].unwrap();
        lemma_hidden_stable(v, order, k, order.len() as int);
        lemma_hidden_members(v, order, k);
        assert(!hidden_upto(v, order, k).contains(x)) by {
            if hidden_upto(v, order, k).contains(x) {
                let m = choose|m: int| 0 <= m < k && order[m] == x;
                assert(order[m] == order[k] && m != k);
            }
        }
        if v.parent[p as int] is Some {
            let kp = choose|j: int| 0 <= j < k && order[j] == p;
            lemma_hidden_stable(v, order, kp, k);
            lemma_hidden_stable(v, order, kp, order.len() as int);
            assert(hidden_upto(v, order, k).contains(p) == full.contains(p));
        }
    }
}


/// Combines the per-node facts the paint loop maintains into the renderer's
/// contract: every rendered node holds the derived absolute position, and
/// everything else kept its old one.
proof fn lemma_render_post(v0: SceneView, vcur: SceneView, n: int)
    requires
        crate::scene::topo_ok(v0.parent, v0.order),
        v0.parent.len() == n,
        0 <= n <= 0x1_0000_0000,
        forall|kk: int|
            0 <= kk < v0.order.len() && proc_node(v0, (#[trigger] v0.order[kk]) as int)
                ==> vcur.global_position[v0.order[kk] as int] == Some(
                global_formula(vcur, v0.order[kk] as int),
            ),
        forall|i2: int|
            0 <= i2 < n && !(exists|kk: int|
                0 <= kk < v0.order.len() && v0.order[kk] == i2 as u32 && proc_node(v0, i2))
                ==> vcur.global_position[i2] == v0.global_position[i2],
    ensures
        forall|x: int|
            0 <= x < n ==> (if rendered(v0, x) {
                vcur.global_position[x] == Some(global_formula(vcur, x))
            } else {
                vcur.global_position[x] == v0.global_position[x]
            }),
{
    assert forall|x: int| 0 <= x < n implies (if rendered(v0, x) {
        vcur.global_position[x] == Some(global_formula(vcur, x))
    } else {
        vcur.global_position[x] == v0.global_position[x]
    }) by {
        if rendered(v0, x) {
            assert(v0.parent[x] is Some);
            assert(v0.order.contains((x as int) as u32));
            let kk = choose|kk: int| 0 <= kk < v0.order.len() && v0.order[kk] == x as u32;
            assert(proc_node(v0, v0.order[kk] as int));
            assert(vcur.global_position[v0.order[kk] as int] == Some(
                global_formula(vcur, v0.order[kk] as int),
            ));
        } else {
            if exists|kk: int|
                0 <= kk < v0.order.len() && v0.order[kk] == x as u32 && proc_node(v0, x) {
                let kk = choose|kk: int|
                    0 <= kk < v0.order.len() && v0.order[kk] == x as u32 && proc_node(v0, x);
                assert(v0.parent[v0.order[kk] as int] is Some);
                assert(rendered(v0, x));
            }
        }
    }
}


/// Global position correctness for a three-level chain: when the renderer
/// has refreshed a child `a` of a root and a grandchild `b` of that child,
/// the grandchild's absolute position is the componentwise sum of the local
/// offsets along its ancestor chain (a root itself is painted at the
/// origin, so its local offset does not shift its children).
pub proof fn lemma_global_chain(v: SceneView, root: int, a: int, b: int)
    requires
        0 <= root < v.parent.len(),
        0 <= a < v.parent.len(),
        0 <= b < v.parent.len(),
        v.parent[root] is None,
        v.parent[a] == Some(root as u32),
        v.parent[b] == Some(a as u32),
        root < 0x1_0000_0000,
        a < 0x1_0000_0000,
        v.global_position[root] is None,
        v.position[a] matches Some(p) && -MAX_EXTENT <= p.x <= MAX_EXTENT && -MAX_EXTENT <= p.y
            <= MAX_EXTENT,
        v.position[b] matches Some(p) && -MAX_EXTENT <= p.x <= MAX_EXTENT && -MAX_EXTENT <= p.y
            <= MAX_EXTENT,
        v.global_position[a] == Some(global_formula(v, a)),
        v.global_position[b] == Some(global_formula(v, b)),
    ensures
        v.global_position[a] == Some(v.position[a].unwrap()),
        v.global_position[b] == Some(
            Position {
                x: (v.position[a].unwrap().x + v.position[b].unwrap().x) as i64,
                y: (v.position[a].unwrap().y + v.position[b].unwrap().y) as i64,
            },
        ),
{
    assert(global_formula(v, a) == v.position[a].unwrap());
}

impl Tui {
    /// Runs the renderer for this frame. On a resize the retained buffer is
    /// rebuilt blank (emitting one row-blanking write per row); if any node
    /// event arrived, absolute positions are recomputed ancestors-first,
    /// the visible forest is repainted by paint priority, and the buffer is
    /// diffed against the retained one, emitting one write per changed
    /// cell, row-major. With no events at all, nothing happens and nothing
    /// is written.
    #[verifier::rlimit(100)]
    pub fn run_render(&mut self, evs: &Vec<TuiEvent>) -> (ops: Vec<TermOp>)
        requires
            old(self).wf(),
        ensures
            final(self).wf(),
            final(self).backplane_ok(),
            final(self).last_screen == old(self).last_screen,
            final(self).scene.n() == old(self).scene.n(),
            final(self).scene@ == (SceneView {
                global_position: final(self).scene@.global_position,
                ..old(self).scene@
            }),
            final(self).global_log.cursors() == old(self).global_log.cursors(),
            final(self).position_log == old(self).position_log,
            final(self).text_block_log == old(self).text_block_log,
            final(self).visible_log == old(self).visible_log,
            final(self).zlevel_log == old(self).zlevel_log,
            final(self).hierarchy_log == old(self).hierarchy_log,
            final(self).snap == old(self).snap,
            final(self).snap_rows == old(self).snap_rows,
            evs@.len() == 0 && old(self).backplane_ok() ==> ops@.len() == 0 && *final(self)
                == *old(self),
            ops@ =~= (if has_resize_ev(evs@) {
                blank_ops(old(self).last_screen.width as int, old(self).last_screen.height as int)
            } else {
                Seq::<TermOp>::empty()
            }) + diff_ops(
                render_base(*old(self), evs@),
                bp_view(final(self).backplane@),
                old(self).last_screen.width as int,
                old(self).last_screen.height as int,
            ),
            repaint_set(old(self).scene.n(), evs@) != Set::<u32>::empty() ==> forall|x: int|
                0 <= x < old(self).scene.n() ==> (if rendered(old(self).scene@, x) {
                    final(self).scene@.global_position[x] == Some(
                        global_formula(final(self).scene@, x),
                    )
                } else {
                    final(self).scene@.global_position[x] == old(self).scene@.global_position[x]
                }),
    {
        let screen = self.last_screen;
        let n = self.scene.node_count();
        let mut resized = false;
        let mut dirty = bitset_new();
        let mut k: usize = 0;
        #[verifier::loop_isolation(false)]
        while k < evs.len()
            invariant
                k <= evs@.len(),
                forall|x: u32| bits_of(dirty).contains(x) ==> x < n,
                bits_of(dirty) =~= repaint_upto(n as int, evs@, k as int),
                resized == (exists|kk: int|
                    0 <= kk < k && (#[trigger] evs@[kk]) is ScreenSize),
                evs@.len() == 0 ==> bits_of(dirty) =~= Set::<u32>::empty(),
            decreases evs@.len() - k,
        {
            match evs[k] {
                TuiEvent::ScreenSize { .. } => {
                    resized = true;
                    proof {
                        assert(evs@[k as int] is ScreenSize);
                    }
                },
                TuiEvent::GlobalPosition { .. } => {},
                TuiEvent::Position { entity, .. } => {
                    if (entity as usize) < n {
                        bitset_add(&mut dirty, entity);
                    }
                },
                TuiEvent::TextBlock { entity, .. } => {
                    if (entity as usize) < n {
                        bitset_add(&mut dirty, entity);
                    }
                },
                TuiEvent::Visible { entity, .. } => {
                    if (entity as usize) < n {
                        bitset_add(&mut dirty, entity);
                    }
                },
                TuiEvent::ZLevel { entity, .. } => {
                    if (entity as usize) < n {
                        bitset_add(&mut dirty, entity);
                    }
                },
                TuiEvent::HierarchyModified(x) => {
                    if (x as usize) < n {
                        bitset_add(&mut dirty, x);
                    }
                },
                TuiEvent::HierarchyRemoved(x) => {
                    if (x as usize) < n {
                        bitset_add(&mut dirty, x);
                    }
                },
            }
            k += 1;
        }
        proof {
            assert(has_resize_ev(evs@) == resized);
        }
        let mut ops: Vec<TermOp> = Vec::new();
        let mut need = resized;
        if self.backplane.len() != sh0(screen) {
            need = true;
        } else {
            if screen.height > 0 && self.backplane[0].len() != sw0(screen) {
                need = true;
            }
        }
        proof {
            if !need {
                assert(old(self).backplane_ok());
            } else {
                if !resized {
                    assert(!old(self).backplane_ok());
                }
            }
        }
        if need {
            let mut fresh: Vec<Vec<char>> = Vec::new();
            let mut y: i64 = 0;
            #[verifier::loop_isolation(false)]
            while y < screen.height
                invariant
                    0 <= y <= screen.height,
                    fresh@.len() == y,
                    resized ==> ops@.len() == y,
                    !resized ==> ops@.len() == 0,
                    forall|yy: int|
                        0 <= yy < y ==> (#[trigger] fresh@[yy])@.len() == screen.width,
                    forall|yy: int, x2: int|
                        0 <= yy < y && 0 <= x2 < screen.width ==> (#[trigger] fresh@[yy]@[x2])
                            == ' ',
                    resized ==> forall|yy: int|
                        0 <= yy < y ==> (#[trigger] ops@[yy]) == (TermOp::BlankRow {
                            row: yy as i64,
                            width: screen.width,
                        }),
                decreases screen.height - y,
            {
                let mut row: Vec<char> = Vec::new();
                let mut x: i64 = 0;
                #[verifier::loop_isolation(false)]
                while x < screen.width
                    invariant
                        0 <= x <= screen.width,
                        row@.len() == x,
                        forall|x2: int| 0 <= x2 < x ==> (#[trigger] row@[x2]) == ' ',
                    decreases screen.width - x,
                {
                    row.push(' ');
                    x += 1;
                }
                fresh.push(row);
                if resized {
                    ops.push(TermOp::BlankRow { row: y, width: screen.width });
                }
                y += 1;
            }
            self.backplane = fresh;
        }
        proof {
            assert(self.backplane@.len() == screen.height);
            assert forall|yy: int| 0 <= yy < self.backplane@.len() implies (
            #[trigger] self.backplane@[yy])@.len() == screen.width by {}
            if need {
                assert forall|yy: int| 0 <= yy < screen.height implies #[trigger] bp_view(
                    self.backplane@,
                )[yy] =~= blank_grid(screen.width as int, screen.height as int)[yy] by {
                    assert(bp_view(self.backplane@)[yy] == self.backplane@[yy]@);
                }
                assert(bp_view(self.backplane@) =~~= blank_grid(
                    screen.width as int,
                    screen.height as int,
                ));
            }
            assert(bp_view(self.backplane@) =~~= render_base(*old(self), evs@));
            if resized {
                assert(ops@ =~= blank_ops(screen.width as int, screen.height as int));
            }
        }
        let ghost base_g = bp_view(self.backplane@);
        let ghost blanks_part = if has_resize_ev(evs@) {
            blank_ops(screen.width as int, screen.height as int)
        } else {
            Seq::<TermOp>::empty()
        };
        proof {
            assert(ops@ =~= blanks_part);
        }
        if bitset_is_empty(&dirty) {
            proof {
                lemma_diff_self(
                    base_g,
                    bp_view(self.backplane@),
                    screen.width as int,
                    screen.height as int,
                );
                assert(ops@ =~= blanks_part + diff_ops(
                    base_g,
                    bp_view(self.backplane@),
                    screen.width as int,
                    screen.height as int,
                ));
            }
            return ops;
        }
        let ghost bp_facts = self.backplane@;
        let ghost v0 = self.scene@;
        // invisibility: explicitly hidden nodes, and every descendant
        let mut inv: Vec<bool> = Vec::new();
        let mut i: usize = 0;
        #[verifier::loop_isolation(false)]
        while i < n
            invariant
                i <= n,
                inv@.len() == i,
                *self == *old(self) || self.backplane@ == bp_facts,
                self.scene == old(self).scene,
                self.position_log == old(self).position_log,
                self.text_block_log == old(self).text_block_log,
                self.visible_log == old(self).visible_log,
                self.zlevel_log == old(self).zlevel_log,
                self.global_log == old(self).global_log,
                self.hierarchy_log == old(self).hierarchy_log,
                self.snap == old(self).snap,
                self.snap_rows == old(self).snap_rows,
                self.last_screen == old(self).last_screen,
                self.backplane@ == bp_facts,
                forall|m: int| 0 <= m < i ==> inv@[m] == (v0.visible[m] == Some(false)),
            decreases n - i,
        {
            let hidden = match self.scene.get_visible(i as u32) {
                Some(b) => !b,
                None => false,
            };
            inv.push(hidden);
            i += 1;
        }
        let olen = self.scene.order_len();
        proof {
            lemma_hidden_rec(v0, v0.order);
        }
        let mut k2: usize = 0;
        #[verifier::loop_isolation(false)]
        while k2 < olen
            invariant
                k2 <= olen,
                inv@.len() == n,
                olen == self.scene@.order.len(),
                forall|j: int|
                    0 <= j < k2 ==> inv@[(#[trigger] v0.order[j]) as int] == hidden_set(
                        v0,
                    ).contains(v0.order[j]),
                forall|i2: int|
                    0 <= i2 < n && !(exists|j: int| 0 <= j < k2 && v0.order[j] == i2 as u32)
                        ==> inv@[i2] == (v0.visible[i2] == Some(false)),
            decreases olen - k2,
        {
            let x = self.scene.order_at(k2);
            proof {
                assert(self.scene@.parent[x as int] is Some);
                assert(v0.order[k2 as int] == x);
            }
            let p = self.scene.get_parent(x).unwrap();
            proof {
                assert(0 <= p < n);
                assert(!(exists|j: int| 0 <= j < k2 && v0.order[j] == x)) by {
                    if exists|j: int| 0 <= j < k2 && v0.order[j] == x {
                        let j = choose|j: int| 0 <= j < k2 && v0.order[j] == x;
                        assert(v0.order[j] == v0.order[k2 as int] && j != k2);
                    }
                }
                if v0.parent[p as int] is Some {
                    let jp = choose|j: int| 0 <= j < k2 && v0.order[j] == p;
                    assert(inv@[p as int] == hidden_set(v0).contains(p));
                } else {
                    assert(!(exists|j: int| 0 <= j < olen && v0.order[j] == p)) by {
                        if exists|j: int| 0 <= j < olen && v0.order[j] == p {
                            let j = choose|j: int| 0 <= j < olen && v0.order[j] == p;
                            assert(v0.parent[v0.order[j] as int] is Some);
                        }
                    }
                    assert(inv@[p as int] == (v0.visible[p as int] == Some(false)));
                }
            }
            let ghost inv_pre = inv@;
            if inv[p as usize] {
                inv[x as usize] = true;
            }
            proof {
                assert(inv@[x as int] == hidden_set(v0).contains(x)) by {
                    assert(inv_pre[x as int] == (v0.visible[x as int] == Some(false)));
                }
                assert forall|i2: int|
                    0 <= i2 < n && !(exists|j: int| 0 <= j < k2 + 1 && v0.order[j] == i2 as u32)
                    implies inv@[i2] == (v0.visible[i2] == Some(false)) by {
                    assert(i2 != x as int);
                }
            }
            k2 += 1;
        }
        // paint buffer and priority buffer
        let sw = screen.width;
        let sh = screen.height;
        let mut buf: Vec<Vec<char>> = Vec::new();
        let mut zbuf: Vec<Vec<i64>> = Vec::new();
        let mut y: i64 = 0;
        #[verifier::loop_isolation(false)]
        while y < sh
            invariant
                0 <= y <= sh,
                buf@.len() == y,
                zbuf@.len() == y,
                forall|yy: int| 0 <= yy < y ==> (#[trigger] buf@[yy])@.len() == sw,
                forall|yy: int| 0 <= yy < y ==> (#[trigger] zbuf@[yy])@.len() == sw,
            decreases sh - y,
        {
            let mut row: Vec<char> = Vec::new();
            let mut zrow: Vec<i64> = Vec::new();
            let mut x: i64 = 0;
            #[verifier::loop_isolation(false)]
            while x < sw
                invariant
                    0 <= x <= sw,
                    row@.len() == x,
                    zrow@.len() == x,
                decreases sw - x,
            {
                row.push(' ');
                zrow.push(BACKGROUND_Z);
                x += 1;
            }
            buf.push(row);
            zbuf.push(zrow);
            y += 1;
        }
        // recompute absolute positions and paint, ancestors first
        let mut k3: usize = 0;
        #[verifier::loop_isolation(false)]
        while k3 < olen
            invariant
                k3 <= olen,
                self.wf(),
                self.scene.n() == n,
                olen == self.scene@.order.len(),
                inv@.len() == n,
                buf@.len() == sh,
                zbuf@.len() == sh,
                forall|yy: int| 0 <= yy < sh ==> (#[trigger] buf@[yy])@.len() == sw,
                forall|yy: int| 0 <= yy < sh ==> (#[trigger] zbuf@[yy])@.len() == sw,
                self.scene@ == (SceneView {
                    global_position: self.scene@.global_position,
                    ..old(self).scene@
                }),
                self.global_log.cursors() == old(self).global_log.cursors(),
                self.position_log == old(self).position_log,
                self.text_block_log == old(self).text_block_log,
                self.visible_log == old(self).visible_log,
                self.zlevel_log == old(self).zlevel_log,
                self.hierarchy_log == old(self).hierarchy_log,
                self.snap == old(self).snap,
                self.snap_rows == old(self).snap_rows,
                self.last_screen == old(self).last_screen,
                self.backplane@.len() == sh,
                forall|yy: int|
                    0 <= yy < sh ==> (#[trigger] self.backplane@[yy])@.len() == sw,
                bp_view(self.backplane@) == base_g,
                ops@ =~= blanks_part,
                forall|j: int|
                    0 <= j < olen ==> inv@[(#[trigger] v0.order[j]) as int] == hidden_set(
                        v0,
                    ).contains(v0.order[j]),
                v0 == old(self).scene@,
                forall|kk: int|
                    0 <= kk < k3 && proc_node(v0, (#[trigger] v0.order[kk]) as int)
                        ==> self.scene@.global_position[v0.order[kk] as int] == Some(
                        global_formula(self.scene@, v0.order[kk] as int),
                    ),
                forall|i2: int|
                    0 <= i2 < n && !(exists|kk: int|
                        0 <= kk < k3 && v0.order[kk] == i2 as u32 && proc_node(v0, i2))
                        ==> self.scene@.global_position[i2] == v0.global_position[i2],
            decreases olen - k3,
        {
            let x = self.scene.order_at(k3);
            proof {
                assert(v0.order[k3 as int] == x);
                assert(forall|j: int| 0 <= j < olen && j != k3 ==> v0.order[j] != x);
            }
            if !inv[x as usize] {
                let loc = self.scene.get_position(x);
                let tb_some = match self.scene.get_text_block(x) {
                    Some(_) => true,
                    None => false,
                };
                match (loc, tb_some) {
                    (Some(local), true) => {
                        proof {
                            assert(proc_node(v0, x as int));
                            assert(self.scene@.alive[x as int]) by {
                                if !self.scene@.alive[x as int] {
                                    assert(self.scene.slot_clean(x as int));
                                }
                            }
                            assert(self.scene.slot_bounded(x as int));
                        }
                        let p = self.scene.get_parent(x).unwrap();
                        let g = match self.scene.get_global_position(p) {
                            Some(pg) => {
                                proof {
                                    assert(self.scene.slot_bounded(p as int));
                                }
                                Position {
                                    x: clamp_c(pg.x + local.x),
                                    y: clamp_c(pg.y + local.y),
                                }
                            },
                            None => local,
                        };
                        let ghost before_w = self.scene@;
                        let was = self.scene.set_global_position(x, g);
                        let kind = if was {
                            ChangeKind::Modified
                        } else {
                            ChangeKind::Inserted
                        };
                        self.global_log.record((kind, x));
                        proof {
                            let p0 = v0.parent[x as int].unwrap();
                            assert(p0 == p);
                            assert(p as int != x as int);
                            assert(self.scene@.global_position[x as int] == Some(g));
                            assert(self.scene@.global_position[p as int]
                                == before_w.global_position[p as int]);
                            assert(g == global_formula(self.scene@, x as int));
                            assert forall|kk: int|
                                0 <= kk < k3 + 1 && proc_node(v0, (#[trigger] v0.order[kk]) as int)
                                implies self.scene@.global_position[v0.order[kk] as int] == Some(
                                global_formula(self.scene@, v0.order[kk] as int),
                            ) by {
                                if kk < k3 {
                                    let y0 = v0.order[kk];
                                    assert(y0 != x);
                                    assert(self.scene@.global_position[y0 as int]
                                        == before_w.global_position[y0 as int]);
                                    let py = v0.parent[y0 as int].unwrap();
                                    assert(py != x) by {
                                        if v0.parent[py as int] is Some {
                                            let jj = choose|jj: int|
                                                0 <= jj < kk && v0.order[jj] == py;
                                            assert(v0.order[jj] != v0.order[k3 as int]);
                                        } else {
                                            assert(v0.parent[x as int] is Some);
                                        }
                                    }
                                    assert(self.scene@.global_position[py as int]
                                        == before_w.global_position[py as int]);
                                    assert(global_formula(self.scene@, y0 as int)
                                        == global_formula(before_w, y0 as int));
                                }
                            }
                        }
                        let (w, h) = match self.scene.get_text_block(x) {
                            Some(tb) => (tb.width, tb.height),
                            None => (0, 0),
                        };
                        let z = match self.scene.get_zlevel(x) {
                            Some(zz) => zz,
                            None => 0,
                        };
                        // paint the block, clipped to the screen rectangle
                        let y_lo: i64 = if g.y > 0 {
                            g.y
                        } else {
                            0
                        };
                        let y_hi: i64 = if g.y + h < sh {
                            g.y + h
                        } else {
                            sh
                        };
                        let x_lo: i64 = if g.x > 0 {
                            g.x
                        } else {
                            0
                        };
                        let x_hi: i64 = if g.x + w < sw {
                            g.x + w
                        } else {
                            sw
                        };
                        let mut iy: i64 = y_lo;
                        #[verifier::loop_isolation(false)]
                        while iy < y_hi
                            invariant
                                y_lo <= iy,
                                0 <= y_lo,
                                y_hi <= sh,
                                y_lo >= g.y,
                                y_hi <= g.y + h,
                                0 <= x_lo,
                                x_hi <= sw,
                                x_lo >= g.x,
                                x_hi <= g.x + w,
                                buf@.len() == sh,
                                zbuf@.len() == sh,
                                forall|yy: int| 0 <= yy < sh ==> (#[trigger] buf@[yy])@.len() == sw,
                                forall|yy: int| 0 <= yy < sh ==> (#[trigger] zbuf@[yy])@.len() == sw,
                            decreases y_hi - iy,
                        {
                            let yy = iy as usize;
                            let ri = iy - g.y;
                            let mut jx: i64 = x_lo;
                            #[verifier::loop_isolation(false)]
                            while jx < x_hi
                                invariant
                                    x_lo <= jx,
                                    y_lo <= iy < y_hi,
                                    yy == iy as usize,
                                    ri == iy - g.y,
                                    0 <= ri < h,
                                    buf@.len() == sh,
                                    zbuf@.len() == sh,
                                    forall|yy2: int|
                                        0 <= yy2 < sh ==> (#[trigger] buf@[yy2])@.len() == sw,
                                    forall|yy2: int|
                                        0 <= yy2 < sh ==> (#[trigger] zbuf@[yy2])@.len() == sw,
                                decreases x_hi - jx,
                            {
                                let xx = jx as usize;
                                let cj = jx - g.x;
                                let ch = match self.scene.get_text_block(x) {
                                    Some(tb) => {
                                        if 0 <= ri && (ri as usize) < tb.rows.len() {
                                            let rr = &tb.rows[ri as usize];
                                            if 0 <= cj && (cj as usize) < rr.len() {
                                                rr[cj as usize]
                                            } else {
                                                ' '
                                            }
                                        } else {
                                            ' '
                                        }
                                    },
                                    None => ' ',
                                };
                                if z >= zbuf[yy][xx] {
                                    buf[yy][xx] = ch;
                                    zbuf[yy][xx] = z;
                                    proof {
                                        assert(buf@[yy as int]@.len() == sw);
                                        assert forall|yy2: int| 0 <= yy2 < sh implies (
                                        #[trigger] buf@[yy2])@.len() == sw by {}
                                    }
                                }
                                jx += 1;
                            }
                            iy += 1;
                        }
                    },
                    _ => {},
                }
            }
            k3 += 1;
        }
        let ghost pre_diff_scene = self.scene;
        proof {
            lemma_render_post(v0, self.scene@, n as int);
        }
        // diff against the retained frame and adopt the new buffer
        let mut y2: i64 = 0;
        #[verifier::loop_isolation(false)]
        while y2 < sh
            invariant
                0 <= y2 <= sh,
                buf@.len() == sh,
                self.backplane@.len() == sh,
                forall|yy: int| 0 <= yy < sh ==> (#[trigger] buf@[yy])@.len() == sw,
                forall|yy: int|
                    0 <= yy < sh ==> (#[trigger] self.backplane@[yy])@.len() == sw,
                bp_view(self.backplane@) == base_g,
                ops@ =~= blanks_part + diff_upto(base_g, bp_view(buf@), sw as int, y2 as int),
                v0 == old(self).scene@,
                self.scene == pre_diff_scene,
                forall|x: int|
                    0 <= x < n ==> (if rendered(v0, x) {
                        self.scene@.global_position[x] == Some(global_formula(self.scene@, x))
                    } else {
                        self.scene@.global_position[x] == v0.global_position[x]
                    }),
            decreases sh - y2,
        {
            let mut x2: i64 = 0;
            #[verifier::loop_isolation(false)]
            while x2 < sw
                invariant
                    0 <= x2 <= sw,
                    0 <= y2 < sh,
                    buf@.len() == sh,
                    self.backplane@.len() == sh,
                    forall|yy: int| 0 <= yy < sh ==> (#[trigger] buf@[yy])@.len() == sw,
                    forall|yy: int|
                        0 <= yy < sh ==> (#[trigger] self.backplane@[yy])@.len() == sw,
                    bp_view(self.backplane@) == base_g,
                    ops@ =~= blanks_part + diff_upto(base_g, bp_view(buf@), sw as int, y2 as int)
                        + diff_row(
                        base_g[y2 as int],
                        bp_view(buf@)[y2 as int],
                        y2 as int,
                        x2 as int,
                    ),
                decreases sw - x2,
            {
                let oldc = self.backplane[y2 as usize][x2 as usize];
                let newc = buf[y2 as usize][x2 as usize];
                proof {
                    assert(base_g[y2 as int][x2 as int] == oldc);
                    assert(bp_view(buf@)[y2 as int][x2 as int] == newc);
                }
                if oldc != newc {
                    ops.push(TermOp::Put { row: y2, col: x2, ch: newc });
                    proof {
                        assert(put_op(y2 as int, x2 as int, newc) == (TermOp::Put {
                            row: y2,
                            col: x2,
                            ch: newc,
                        }));
                        assert(diff_row(base_g[y2 as int], bp_view(buf@)[y2 as int], y2 as int, x2 + 1)
                            == diff_row(
                            base_g[y2 as int],
                            bp_view(buf@)[y2 as int],
                            y2 as int,
                            x2 as int,
                        ).push(put_op(y2 as int, x2 as int, newc)));
                    }
                } else {
                    proof {
                        assert(diff_row(base_g[y2 as int], bp_view(buf@)[y2 as int], y2 as int, x2 + 1)
                            == diff_row(
                            base_g[y2 as int],
                            bp_view(buf@)[y2 as int],
                            y2 as int,
                            x2 as int,
                        ));
                    }
                }
                x2 += 1;
            }
            proof {
                assert(diff_upto(base_g, bp_view(buf@), sw as int, y2 + 1) == diff_upto(
                    base_g,
                    bp_view(buf@),
                    sw as int,
                    y2 as int,
                ) + diff_row(base_g[y2 as int], bp_view(buf@)[y2 as int], y2 as int, sw as int));
            }
            y2 += 1;
        }
        self.backplane = buf;
        proof {
            assert(ops@ =~= blanks_part + diff_ops(
                base_g,
                bp_view(self.backplane@),
                sw as int,
                sh as int,
            ));
        }
        ops
    }
}

} // verus!
