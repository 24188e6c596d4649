//! The border decorator. A node carrying a `Border` owns its full
//! rectangle: it paints an outline (bars, dashes and corner crosses) into
//! its own text block, and shrinks each child's declared size so the
//! child's content stays clear of the drawn right and bottom edges. It
//! reacts to text block journal entries through its own cursor, so it sees
//! the layout solver's writes of the same frame.
use vstd::prelude::*;
use crate::components::{Border, MAX_EXTENT};
use crate::dirty::{bitset_add, bitset_contains, bitset_new, bits_of};
use crate::events::TuiError;
use crate::journal::ChangeKind;
use crate::scene::{SceneView, TextBlockV};
use crate::tui::{Tui, BORDER_READER};

verus! {

/// The nodes named by the text block journal entries the border's cursor
/// has not read yet.
pub open spec fn border_pend(t: Tui) -> Set<u32> {
    crate::normalize::pending_ids(
        t.text_block_log.log(),
        t.text_block_log.cursors()[BORDER_READER as int],
        t.scene.n(),
    )
}

/// The width a border node's block declares, zero without a block.
pub open spec fn bwidth(v: SceneView, b: int) -> int {
    match v.text_block[b] {
        Some(t) => t.width,
        None => 0,
    }
}

/// The height a border node's block declares, zero without a block.
pub open spec fn bheight(v: SceneView, b: int) -> int {
    match v.text_block[b] {
        Some(t) => t.height,
        None => 0,
    }
}

/// The inset width of a border node's child: the parent's width less the
/// child's offset and the drawn right edge.
pub open spec fn inset_w(v: SceneView, b: int, c: int) -> int {
    bwidth(v, b) - v.position[c].unwrap().x - (if v.border[b].unwrap().right {
        1int
    } else {
        0int
    })
}

/// The inset height of a border node's child.
pub open spec fn inset_h(v: SceneView, b: int, c: int) -> int {
    bheight(v, b) - v.position[c].unwrap().y - (if v.border[b].unwrap().bottom {
        1int
    } else {
        0int
    })
}

/// A structural fault at border node `b`: a negative rectangle, edges asked
/// of a rectangle without a full cell, a child with no position to inset
/// by, or an inset outside the storable range.
pub open spec fn border_fault(v: SceneView, b: int) -> bool {
    let bd = v.border[b].unwrap();
    let w = bwidth(v, b);
    let h = bheight(v, b);
    ||| w < 0
    ||| h < 0
    ||| ((bd.left || bd.right || bd.top || bd.bottom) && (w == 0 || h == 0))
    ||| exists|c: int|
        0 <= c < v.parent.len() && v.parent[c] == Some(b as u32) && ((#[trigger] v.position[c])
            is None || !(-MAX_EXTENT <= inset_w(v, b, c) <= MAX_EXTENT && -MAX_EXTENT <= inset_h(
            v,
            b,
            c,
        ) <= MAX_EXTENT))
}

/// A scene where some border node sits directly below another: the passes
/// of such nested borders overwrite each other's inputs, so the pass's
/// value contract is stated for scenes without them.
pub open spec fn nested_borders(v: SceneView) -> bool {
    exists|b: int|
        0 <= b < v.parent.len() && (#[trigger] v.border[b]) is Some && (v.parent[b] matches Some(p)
            && v.border[p as int] is Some)
}

/// What one border pass leaves at a dirty border node `b` and its children:
/// the node's rows hold exactly the outline of its declared rectangle, and
/// every child's block is resized to the inset content area.
pub open spec fn border_done(v0: SceneView, v: SceneView, b: int) -> bool {
    let bd = v0.border[b].unwrap();
    let w = bwidth(v0, b);
    let h = bheight(v0, b);
    &&& v.text_block[b] matches Some(t) && t.width == w && t.height == h && t.rows.len() == h && (
    forall|y: int, x: int|
        0 <= y < h && 0 <= x < w ==> (#[trigger] t.rows[y][x]) == border_cell(bd, w, h, y, x)) && (
    forall|y: int| 0 <= y < h ==> (#[trigger] t.rows[y]).len() == w)
    &&& forall|c: int|
        0 <= c < v0.parent.len() && v0.parent[c] == Some(b as u32)
            ==> #[trigger] v.text_block[c] == Some(
            crate::scene::resized_tb(v0.text_block[c], inset_w(v0, b, c), inset_h(v0, b, c)),
        )
}

/// What the outline puts at cell (y, x) of a w-by-h rectangle: bottom and
/// top rows win over the side bars, corners where an edge meets a bar are
/// crosses, everything else is blank.
pub open spec fn border_cell(b: Border, w: int, h: int, y: int, x: int) -> char {
    if b.bottom && y == h - 1 {
        if b.left && x == 0 {
            '+'
        } else if b.right && x == w - 1 {
            '+'
        } else {
            '-'
        }
    } else if b.top && y == 0 {
        if b.left && x == 0 {
            '+'
        } else if b.right && x == w - 1 {
            '+'
        } else {
            '-'
        }
    } else if b.left && x == 0 {
        '|'
    } else if b.right && x == w - 1 {
        '|'
    } else {
        ' '
    }
}

/// Paints the outline rectangle: row `y`, column `x` of the result holds
/// exactly `border_cell(b, w, h, y, x)`.
pub fn border_rows(w: i64, h: i64, b: Border) -> (r: Vec<Vec<char>>)
    requires
        0 <= w <= MAX_EXTENT,
        0 <= h <= MAX_EXTENT,
        (b.left || b.right || b.top || b.bottom) ==> w >= 1 && h >= 1,
    ensures
        r@.len() == h,
        forall|y: int| 0 <= y < h ==> (#[trigger] r@[y])@.len() == w,
        forall|y: int, x: int|
            0 <= y < h && 0 <= x < w ==> (#[trigger] r@[y]@[x]) == border_cell(
                b,
                w as int,
                h as int,
                y,
                x,
            ),
{
    let mut rows: Vec<Vec<char>> = Vec::new();
    let mut y: i64 = 0;
    #[verifier::loop_isolation(false)]
    while y < h
        invariant
            0 <= y <= h,
            rows@.len() == y,
            forall|yy: int| 0 <= yy < y ==> (#[trigger] rows@[yy])@.len() == w,
            forall|yy: int, x: int|
                0 <= yy < y && 0 <= x < w ==> (#[trigger] rows@[yy]@[x]) == border_cell(
                    b,
                    w as int,
                    h as int,
                    yy,
                    x,
                ),
        decreases h - y,
    {
        let mut row: Vec<char> = Vec::new();
        let mut x: i64 = 0;
        #[verifier::loop_isolation(false)]
        while x < w
            invariant
                0 <= x <= w,
                0 <= y < h,
                row@.len() == x,
                forall|xx: int|
                    0 <= xx < x ==> (#[trigger] row@[xx]) == border_cell(
                        b,
                        w as int,
                        h as int,
                        y as int,
                        xx,
                    ),
            decreases w - x,
        {
            let ch = if b.bottom && y == h - 1 {
                if b.left && x == 0 {
                    '+'
                } else if b.right && x == w - 1 {
                    '+'
                } else {
                    '-'
                }
            } else if b.top && y == 0 {
                if b.left && x == 0 {
                    '+'
                } else if b.right && x == w - 1 {
                    '+'
                } else {
                    '-'
                }
            } else if b.left && x == 0 {
                '|'
            } else if b.right && x == w - 1 {
                '|'
            } else {
                ' '
            };
            row.push(ch);
            x += 1;
        }
        rows.push(row);
        y += 1;
    }
    rows
}

pub(crate) fn rows_eq(a: &Vec<Vec<char>>, b: &Vec<Vec<char>>) -> (r: bool)
    ensures
        r == (a@.map_values(|v: Vec<char>| v@) =~= b@.map_values(|v: Vec<char>| v@)),
{
    if a.len() != b.len() {
        proof {
            assert(a@.map_values(|v: Vec<char>| v@).len() != b@.map_values(|v: Vec<char>| v@).len());
        }
        return false;
    }
    let n = a.len();
    let mut y: usize = 0;
    #[verifier::loop_isolation(false)]
    while y < n
        invariant
            y <= n,
            a@.len() == n,
            b@.len() == n,
            forall|yy: int| 0 <= yy < y ==> a@[yy]@ =~= b@[yy]@,
        decreases n - y,
    {
        let ra = &a[y];
        let rb = &b[y];
        if ra.len() != rb.len() {
            proof {
                assert(a@.map_values(|v: Vec<char>| v@)[y as int].len() != b@.map_values(
                    |v: Vec<char>| v@,
                )[y as int].len());
            }
            return false;
        }
        let m = ra.len();
        let mut x: usize = 0;
        #[verifier::loop_isolation(false)]
        while x < m
            invariant
                x <= m,
                ra@.len() == m,
                rb@.len() == m,
                ra == &a[y as int],
                rb == &b[y as int],
                forall|xx: int| 0 <= xx < x ==> ra@[xx] == rb@[xx],
            decreases m - x,
        {
            if ra[x] != rb[x] {
                proof {
                    assert(a@.map_values(|v: Vec<char>| v@)[y as int][x as int] != b@.map_values(
                        |v: Vec<char>| v@,
                    )[y as int][x as int]);
                }
                return false;
            }
            x += 1;
        }
        proof {
            assert(a@[y as int]@ =~= b@[y as int]@);
        }
        y += 1;
    }
    proof {
        assert forall|yy: int| #![trigger a@[yy]] 0 <= yy < n implies a@.map_values(
            |v: Vec<char>| v@,
        )[yy] == b@.map_values(|v: Vec<char>| v@)[yy] by {
            assert(a@[yy]@ =~= b@[yy]@);
        }
        assert(a@.map_values(|v: Vec<char>| v@) =~= b@.map_values(|v: Vec<char>| v@));
    }
    true
}

/// Nodes a border frame may write: nodes carrying a border, and their
/// direct children.
pub open spec fn border_touchable(v: SceneView, i: int) -> bool {
    ||| v.border[i] is Some
    ||| (v.parent[i] matches Some(p) && v.border[p as int] is Some)
}

impl Tui {
    /// Repaints every border node named in the text block journal since the
    /// border's own cursor: each child's declared size is shrunk to clear
    /// the drawn right and bottom edges, and the node's own rows become the
    /// outline rectangle. Writes that would change nothing are suppressed.
    #[verifier::rlimit(100)]
    pub fn run_border(&mut self) -> (r: Result<(), TuiError>)
        requires
            old(self).wf(),
        ensures
            final(self).wf(),
            final(self).scene.n() == old(self).scene.n(),
            final(self).scene@ == (SceneView {
                position: final(self).scene@.position,
                text_block: final(self).scene@.text_block,
                ..old(self).scene@
            }),
            final(self).scene@.position == old(self).scene@.position,
            forall|i: int|
                0 <= i < old(self).scene.n() && !border_touchable(old(self).scene@, i) ==> final(self).scene@.text_block[i] == old(self).scene@.text_block[i],
            final(self).text_block_log.cursors() =~= old(self).text_block_log.cursors().update(
                BORDER_READER as int,
                old(self).text_block_log.log().len() as int,
            ),
            final(self).position_log == old(self).position_log,
            final(self).visible_log == old(self).visible_log,
            final(self).zlevel_log == old(self).zlevel_log,
            final(self).global_log == old(self).global_log,
            final(self).hierarchy_log == old(self).hierarchy_log,
            final(self).snap == old(self).snap,
            final(self).snap_rows == old(self).snap_rows,
            final(self).last_screen == old(self).last_screen,
            final(self).backplane == old(self).backplane,
            old(self).text_block_log.caught_up(BORDER_READER as int) ==> r is Ok && final(self).scene == old(self).scene && final(self).text_block_log.log() == old(self).text_block_log.log(),
            r is Err ==> (r matches Err(TuiError::DegenerateBorder { .. }) || r matches Err(
                TuiError::BorderChildWithoutPosition { .. },
            ) || r matches Err(TuiError::ExtentOverflow { .. })),
            !nested_borders(old(self).scene@) ==> ((r is Err) == (exists|b: int|
                0 <= b < old(self).scene.n() && (#[trigger] old(self).scene@.border[b]) is Some
                    && border_pend(*old(self)).contains(b as u32) && border_fault(
                    old(self).scene@,
                    b,
                ))),
            r is Ok && !nested_borders(old(self).scene@) ==> forall|b: int|
                0 <= b < old(self).scene.n() && (#[trigger] old(self).scene@.border[b]) is Some
                    && border_pend(*old(self)).contains(b as u32) ==> border_done(
                    old(self).scene@,
                    final(self).scene@,
                    b,
                ),
    {
        let ghost v0 = self.scene@;
        let n = self.scene.node_count();
        let entries = self.text_block_log.read(BORDER_READER);
        let ghost logs_after_read = *self;
        let mut dirty = bitset_new();
        let mut k: usize = 0;
        #[verifier::loop_isolation(false)]
        while k < entries.len()
            invariant
                k <= entries@.len(),
                forall|x: u32| bits_of(dirty).contains(x) ==> x < n,
                bits_of(dirty) =~= crate::normalize::entry_ids(entries@, n as int, k as int),
                entries@.len() == 0 ==> bits_of(dirty) =~= Set::<u32>::empty(),
            decreases entries@.len() - k,
        {
            let id = entries[k].1;
            if (id as usize) < n {
                bitset_add(&mut dirty, id);
            }
            proof {
                assert(bits_of(dirty) =~= crate::normalize::entry_ids(entries@, n as int, k + 1));
            }
            k += 1;
        }
        proof {
            assert(bits_of(dirty) =~= border_pend(*old(self)));
        }
        let mut b: usize = 0;
        #[verifier::loop_isolation(false)]
        while b < n
            invariant
                b <= n,
                self.wf(),
                self.scene.n() == n,
                self.scene@ == (SceneView {
                    position: self.scene@.position,
                    text_block: self.scene@.text_block,
                    ..v0
                }),
                self.scene@.position == v0.position,
                forall|i: int|
                    0 <= i < n && !border_touchable(v0, i) ==> self.scene@.text_block[i]
                        == v0.text_block[i],
                self.text_block_log.cursors() == logs_after_read.text_block_log.cursors(),
                self.position_log == logs_after_read.position_log,
                self.visible_log == logs_after_read.visible_log,
                self.zlevel_log == logs_after_read.zlevel_log,
                self.global_log == logs_after_read.global_log,
                self.hierarchy_log == logs_after_read.hierarchy_log,
                self.snap == logs_after_read.snap,
                self.snap_rows == logs_after_read.snap_rows,
                self.last_screen == logs_after_read.last_screen,
                self.backplane == logs_after_read.backplane,
                bits_of(dirty) =~= Set::<u32>::empty() ==> self.scene == logs_after_read.scene
                    && self.text_block_log.log() == logs_after_read.text_block_log.log(),
                !nested_borders(v0) ==> forall|b2: int|
                    0 <= b2 < b && (#[trigger] v0.border[b2]) is Some && bits_of(dirty).contains(
                        b2 as u32,
                    ) ==> !border_fault(v0, b2) && border_done(v0, self.scene@, b2),
                !nested_borders(v0) ==> forall|i: int|
                    0 <= i < n && !(exists|b2: int|
                        0 <= b2 < b && v0.border[b2] is Some && bits_of(dirty).contains(b2 as u32)
                            && (i == b2 || v0.parent[i] == Some(b2 as u32)))
                        ==> self.scene@.text_block[i] == v0.text_block[i],
            decreases n - b,
        {
            let ghost nn = !nested_borders(v0);
            let has_border = match self.scene.get_border(b as u32) {
                Some(_) => true,
                None => false,
            };
            if has_border && bitset_contains(&dirty, b as u32) {
                let bd = self.scene.get_border(b as u32).unwrap();
                proof {
                    assert(v0.border[b as int] is Some);
                    assert(border_touchable(v0, b as int));
                    assert(self.scene@.alive[b as int]) by {
                        if !self.scene@.alive[b as int] {
                            assert(self.scene.slot_clean(b as int));
                        }
                    }
                }
                proof {
                    if nn {
                        assert(self.scene@.text_block[b as int] == v0.text_block[b as int]) by {
                            if exists|b2: int|
                                0 <= b2 < b && v0.border[b2] is Some && bits_of(dirty).contains(
                                    b2 as u32,
                                ) && (b as int == b2 || v0.parent[b as int] == Some(b2 as u32)) {
                                let b2 = choose|b2: int|
                                    0 <= b2 < b && v0.border[b2] is Some && bits_of(
                                        dirty,
                                    ).contains(b2 as u32) && (b as int == b2 || v0.parent[b as int]
                                        == Some(b2 as u32));
                                assert(nested_borders(v0));
                            }
                        }
                    }
                }
                let ghost v_entry = self.scene@;
                let has_tb = match self.scene.get_text_block(b as u32) {
                    Some(_) => true,
                    None => false,
                };
                if !has_tb {
                    self.bump_text_block_size(b as u32, 0, 0);
                }
                let (w, h) = match self.scene.get_text_block(b as u32) {
                    Some(tb) => (tb.width, tb.height),
                    None => (0, 0),
                };
                proof {
                    assert(self.scene.slot_bounded(b as int));
                }
                proof {
                    if nn {
                        assert(w as int == bwidth(v0, b as int) && h as int == bheight(
                            v0,
                            b as int,
                        ));
                    }
                }
                if w < 0 || h < 0 {
                    proof {
                        if nn {
                            assert(border_fault(v0, b as int));
                        }
                    }
                    return Err(TuiError::DegenerateBorder { node: b as u32 });
                }
                if (bd.left || bd.right || bd.top || bd.bottom) && (w == 0 || h == 0) {
                    proof {
                        if nn {
                            assert(border_fault(v0, b as int));
                        }
                    }
                    return Err(TuiError::DegenerateBorder { node: b as u32 });
                }
                // inset every child's declared size
                let mut c: usize = 0;
                #[verifier::loop_isolation(false)]
                while c < n
                    invariant
                        c <= n,
                        self.wf(),
                        self.scene.n() == n,
                        self.scene@ == (SceneView {
                            position: self.scene@.position,
                            text_block: self.scene@.text_block,
                            ..v0
                        }),
                        self.scene@.position == v0.position,
                        forall|i: int|
                            0 <= i < n && !border_touchable(v0, i) ==> self.scene@.text_block[i]
                                == v0.text_block[i],
                        self.scene@.parent == v0.parent,
                        self.scene@.border == v0.border,
                        self.text_block_log.cursors() == logs_after_read.text_block_log.cursors(),
                        self.position_log == logs_after_read.position_log,
                        self.visible_log == logs_after_read.visible_log,
                        self.zlevel_log == logs_after_read.zlevel_log,
                        self.global_log == logs_after_read.global_log,
                        self.hierarchy_log == logs_after_read.hierarchy_log,
                        self.snap == logs_after_read.snap,
                self.snap_rows == logs_after_read.snap_rows,
                        self.last_screen == logs_after_read.last_screen,
                        self.backplane == logs_after_read.backplane,
                        self.scene@.text_block[b as int] is Some,
                        -MAX_EXTENT <= w <= MAX_EXTENT,
                        -MAX_EXTENT <= h <= MAX_EXTENT,
                        nn ==> w as int == bwidth(v0, b as int) && h as int == bheight(
                            v0,
                            b as int,
                        ),
                        nn ==> forall|c2: int|
                            0 <= c2 < c && v0.parent[c2] == Some(b as u32)
                                ==> #[trigger] self.scene@.text_block[c2] == Some(
                                crate::scene::resized_tb(
                                    v0.text_block[c2],
                                    inset_w(v0, b as int, c2),
                                    inset_h(v0, b as int, c2),
                                ),
                            ),
                        nn ==> forall|c2: int|
                            0 <= c2 < c && v0.parent[c2] == Some(b as u32) ==> (
                            #[trigger] v0.position[c2]) is Some && -MAX_EXTENT <= inset_w(
                                v0,
                                b as int,
                                c2,
                            ) <= MAX_EXTENT && -MAX_EXTENT <= inset_h(v0, b as int, c2)
                                <= MAX_EXTENT,
                        nn ==> forall|i: int|
                            0 <= i < n && i != b as int && !(v0.parent[i] == Some(b as u32) && i
                                < c) ==> #[trigger] self.scene@.text_block[i]
                                == v_entry.text_block[i],
                        self.scene@.text_block[b as int] == (if v_entry.text_block[b as int]
                            is Some {
                            v_entry.text_block[b as int]
                        } else {
                            Some(crate::scene::resized_tb(v_entry.text_block[b as int], 0, 0))
                        }),
                    decreases n - c,
                {
                    let is_child = match self.scene.get_parent(c as u32) {
                        Some(p) => p == b as u32,
                        None => false,
                    };
                    if is_child {
                        proof {
                            assert(v0.parent[c as int] == Some(b as u32));
                            assert(border_touchable(v0, c as int));
                            assert(self.scene@.alive[c as int]);
                            assert(self.scene.slot_bounded(c as int));
                        }
                        let pos = match self.scene.get_position(c as u32) {
                            Some(p) => p,
                            None => {
                                proof {
                                    if nn {
                                        assert(v0.position[c as int] is None);
                                        assert(border_fault(v0, b as int));
                                    }
                                }
                                return Err(TuiError::BorderChildWithoutPosition { node: c as u32 });
                            },
                        };
                        let cw = w - pos.x - (if bd.right { 1i64 } else { 0i64 });
                        let ch = h - pos.y - (if bd.bottom { 1i64 } else { 0i64 });
                        proof {
                            if nn {
                                assert(cw as int == inset_w(v0, b as int, c as int) && ch as int
                                    == inset_h(v0, b as int, c as int));
                            }
                        }
                        if !(-MAX_EXTENT <= cw && cw <= MAX_EXTENT && -MAX_EXTENT <= ch && ch
                            <= MAX_EXTENT) {
                            proof {
                                if nn {
                                    assert(border_fault(v0, b as int));
                                }
                            }
                            return Err(TuiError::ExtentOverflow { node: c as u32 });
                        }
                        let needs = match self.scene.get_text_block(c as u32) {
                            Some(tb) => tb.width != cw || tb.height != ch,
                            None => true,
                        };
                        if needs {
                            self.bump_text_block_size(c as u32, cw, ch);
                        } else {
                            proof {
                                if nn {
                                    assert(self.scene@.text_block[c as int] == Some(
                                        crate::scene::resized_tb(
                                            v0.text_block[c as int],
                                            inset_w(v0, b as int, c as int),
                                            inset_h(v0, b as int, c as int),
                                        ),
                                    )) by {
                                        assert(c as int != b as int);
                                        assert(self.scene@.text_block[c as int]
                                            == v_entry.text_block[c as int]);
                                        assert(v_entry.text_block[c as int]
                                            == v0.text_block[c as int]);
                                    }
                                }
                            }
                        }
                        proof {
                            if nn {
                                assert(self.scene@.text_block[c as int] == Some(
                                    crate::scene::resized_tb(
                                        v0.text_block[c as int],
                                        inset_w(v0, b as int, c as int),
                                        inset_h(v0, b as int, c as int),
                                    ),
                                ));
                            }
                        }
                    }
                    c += 1;
                }
                proof {
                    if nn {
                        assert(!border_fault(v0, b as int)) by {
                            if border_fault(v0, b as int) {
                                let cf = choose|cf: int|
                                    0 <= cf < v0.parent.len() && v0.parent[cf] == Some(b as u32)
                                        && ((#[trigger] v0.position[cf]) is None || !(-MAX_EXTENT
                                        <= inset_w(v0, b as int, cf) <= MAX_EXTENT && -MAX_EXTENT
                                        <= inset_h(v0, b as int, cf) <= MAX_EXTENT));
                                assert(v0.position[cf] is Some);
                            }
                        }
                    }
                }
                // paint the outline into the node's own rows
                let rows = border_rows(w, h, bd);
                let ghost rows_v = rows@.map_values(|v: Vec<char>| v@);
                let cur = self.scene.get_text_block(b as u32).unwrap();
                if !rows_eq(&cur.rows, &rows) {
                    self.scene.set_text_block_rows(b as u32, rows);
                    self.text_block_log.record((ChangeKind::Modified, b as u32));
                }
                proof {
                    if nn {
                        assert(self.scene@.text_block[b as int] matches Some(t) && t.width
                            == w as int && t.height == h as int && t.rows =~= rows_v);
                        assert(border_done(v0, self.scene@, b as int)) by {
                            let t = self.scene@.text_block[b as int].unwrap();
                            assert forall|y: int, x: int| 0 <= y < h as int && 0 <= x < w as int
                                implies (#[trigger] t.rows[y][x]) == border_cell(
                                v0.border[b as int].unwrap(),
                                w as int,
                                h as int,
                                y,
                                x,
                            ) by {
                                assert(t.rows[y] == rows_v[y]);
                                assert(rows_v[y] == rows@[y]@);
                            }
                            assert forall|y: int| 0 <= y < h as int implies (
                            #[trigger] t.rows[y]).len() == w as int by {
                                assert(t.rows[y] == rows@[y]@);
                            }
                        }
                        assert forall|b2: int|
                            0 <= b2 < b + 1 && (#[trigger] v0.border[b2]) is Some && bits_of(
                                dirty,
                            ).contains(b2 as u32) implies !border_fault(v0, b2) && border_done(
                            v0,
                            self.scene@,
                            b2,
                        ) by {
                            if b2 < b {
                                assert(border_done(v0, v_entry, b2));
                                assert forall|i: int|
                                    0 <= i < n && (i == b2 || v0.parent[i] == Some(b2 as u32))
                                    implies self.scene@.text_block[i] == v_entry.text_block[i] by {
                                    assert(i != b as int) by {
                                        if i == b as int {
                                            assert(nested_borders(v0));
                                        }
                                    }
                                    assert(!(v0.parent[i] == Some(b as u32))) by {
                                        if v0.parent[i] == Some(b as u32) {
                                            if i == b2 {
                                                assert(nested_borders(v0));
                                            }
                                        }
                                    }
                                }
                            }
                        }
                        assert forall|i: int|
                            0 <= i < n && !(exists|b2: int|
                                0 <= b2 < b + 1 && v0.border[b2] is Some && bits_of(
                                    dirty,
                                ).contains(b2 as u32) && (i == b2 || v0.parent[i] == Some(
                                    b2 as u32,
                                ))) implies self.scene@.text_block[i] == v0.text_block[i] by {
                            assert(i != b as int);
                            assert(!(v0.parent[i] == Some(b as u32) && i < n));
                            assert(self.scene@.text_block[i] == v_entry.text_block[i]);
                        }
                    }
                }
            } else {
                proof {
                    if nn {
                        assert forall|b2: int|
                            0 <= b2 < b + 1 && (#[trigger] v0.border[b2]) is Some && bits_of(
                                dirty,
                            ).contains(b2 as u32) implies !border_fault(v0, b2) && border_done(
                            v0,
                            self.scene@,
                            b2,
                        ) by {
                            if b2 == b as int {
                                assert(v0.border[b as int] is Some ==> !bits_of(dirty).contains(
                                    b as u32,
                                ));
                            }
                        }
                    }
                }
            }
            b += 1;
        }
        proof {
            if !nested_borders(v0) {
                assert(!(exists|b2: int|
                    0 <= b2 < n && (#[trigger] v0.border[b2]) is Some && bits_of(dirty).contains(
                        b2 as u32,
                    ) && border_fault(v0, b2)));
            }
        }
        Ok(())
    }
}

} // verus!
