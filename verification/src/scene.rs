//! The scene graph store: a generation-tagged arena of nodes, the parent
//! relation with a maintained topological order (every parented node appears
//! after its parent), and one sparse slot per attribute type.
use vstd::prelude::*;
use crate::components::{
    Border, Centered, Position, StackingContext, StackingRule, TextBlock, Visible, ZLevel,
    MAX_EXTENT, MAX_NODES,
};
use crate::events::TuiError;

verus! {

/// Largest magnitude a stored derived global position can reach: a chain of
/// at most `MAX_NODES` local offsets, each bounded by `MAX_EXTENT`; the
/// renderer saturates here, so adding one more local offset still fits
/// `i64`.
pub const MAX_GLOBAL: i64 = 0x1000_0000_0000_0000;

/// A handle to a node: an arena index plus the generation the slot had when
/// the handle was made, so a handle left over from a deleted node is
/// recognisably stale.
#[derive(Debug, Clone, Copy, PartialEq, Eq, Structural)]
pub struct Entity {
    pub index: u32,
    pub generation: u32,
}

/// The mathematical content of a `TextBlock`.
pub ghost struct TextBlockV {
    pub rows: Seq<Seq<char>>,
    pub width: int,
    pub height: int,
}

impl View for TextBlock {
    type V = TextBlockV;

    open spec fn view(&self) -> TextBlockV {
        TextBlockV {
            rows: self.rows@.map_values(|r: Vec<char>| r@),
            width: self.width as int,
            height: self.height as int,
        }
    }
}

/// The mathematical content of the whole store.
pub ghost struct SceneView {
    pub alive: Seq<bool>,
    pub generation: Seq<u32>,
    pub parent: Seq<Option<u32>>,
    pub order: Seq<u32>,
    pub position: Seq<Option<Position>>,
    pub text_block: Seq<Option<TextBlockV>>,
    pub visible: Seq<Option<bool>>,
    pub zlevel: Seq<Option<i64>>,
    pub stacking_context: Seq<Option<StackingContext>>,
    pub stacking_rule: Seq<Option<StackingRule>>,
    pub centered: Seq<Option<Centered>>,
    pub border: Seq<Option<Border>>,
    pub visible_if_child: Seq<bool>,
    pub global_position: Seq<Option<Position>>,
}

/// Everything but the membership clause of a valid topological order: the
/// listed nodes are parented and distinct, and each one's parent, unless it
/// is a root, stands earlier in the list.
pub open spec fn topo_sorted(parent: Seq<Option<u32>>, order: Seq<u32>) -> bool {
    &&& order.no_duplicates()
    &&& forall|k: int|
        0 <= k < order.len() ==> (#[trigger] order[k]) < parent.len() && parent[order[k] as int] is Some
    &&& forall|k: int|
        0 <= k < order.len() ==> {
            let p = parent[#[trigger] order[k] as int].unwrap();
            parent[p as int] is Some ==> exists|j: int| 0 <= j < k && order[j] == p
        }
}

/// The order lists every parented node.
pub open spec fn topo_complete(parent: Seq<Option<u32>>, order: Seq<u32>) -> bool {
    forall|i: int| 0 <= i < parent.len() && parent[i] is Some ==> #[trigger] order.contains(i as u32)
}

/// A valid topological order of the parent relation: such an order exists
/// exactly when the relation is acyclic.
pub open spec fn topo_ok(parent: Seq<Option<u32>>, order: Seq<u32>) -> bool {
    topo_sorted(parent, order) && topo_complete(parent, order)
}

/// A cleared slot: no attributes and no parent.
pub open spec fn view_slot_clean(v: SceneView, i: int) -> bool {
    &&& v.parent[i] is None
    &&& v.position[i] is None
    &&& v.text_block[i] is None
    &&& v.visible[i] is None
    &&& v.zlevel[i] is None
    &&& v.stacking_context[i] is None
    &&& v.stacking_rule[i] is None
    &&& v.centered[i] is None
    &&& v.border[i] is None
    &&& v.visible_if_child[i] == false
    &&& v.global_position[i] is None
}

/// Stored coordinates and extents stay inside the ranges the layout
/// arithmetic is proved safe for.
pub open spec fn view_slot_bounded(v: SceneView, i: int) -> bool {
    &&& v.position[i] matches Some(p) ==> -MAX_EXTENT <= p.x <= MAX_EXTENT && -MAX_EXTENT <= p.y
        <= MAX_EXTENT
    &&& v.text_block[i] matches Some(t) ==> -MAX_EXTENT <= t.width <= MAX_EXTENT && -MAX_EXTENT
        <= t.height <= MAX_EXTENT
    &&& v.global_position[i] matches Some(g) ==> -MAX_GLOBAL <= g.x <= MAX_GLOBAL && -MAX_GLOBAL
        <= g.y <= MAX_GLOBAL
    &&& v.stacking_rule[i] matches Some(r) ==> r.flex <= crate::components::MAX_FLEX && (
    r.min_width matches Some(m) ==> -crate::components::MAX_RULE_BOUND <= m
        <= crate::components::MAX_RULE_BOUND) && (r.max_width matches Some(m)
        ==> -crate::components::MAX_RULE_BOUND <= m <= crate::components::MAX_RULE_BOUND) && (
    r.min_height matches Some(m) ==> -crate::components::MAX_RULE_BOUND <= m
        <= crate::components::MAX_RULE_BOUND) && (r.max_height matches Some(m)
        ==> -crate::components::MAX_RULE_BOUND <= m <= crate::components::MAX_RULE_BOUND)
}

/// A text block whose rows were replaced wholesale, size kept.
pub open spec fn rerowed_tb(o: Option<TextBlockV>, rows: Seq<Seq<char>>) -> TextBlockV {
    TextBlockV { rows, width: o.unwrap().width, height: o.unwrap().height }
}

/// The rows a text block keeps when only its declared size is rewritten.
pub open spec fn resized_tb(o: Option<TextBlockV>, w: int, h: int) -> TextBlockV {
    TextBlockV {
        rows: match o {
            Some(t) => t.rows,
            None => Seq::empty(),
        },
        width: w,
        height: h,
    }
}

/// The descendants of `top`, read off along a topological order: a node is
/// marked when its parent is `top` or already marked, scanning the order from
/// the front. `k` limits the scan to the first `k` entries.
pub open spec fn subtree_upto(parent: Seq<Option<u32>>, order: Seq<u32>, top: u32, k: int) -> Set<u32>
    decreases k,
{
    if k <= 0 {
        Set::empty()
    } else {
        let prev = subtree_upto(parent, order, top, k - 1);
        let c = order[k - 1];
        let p = parent[c as int].unwrap();
        if p == top || prev.contains(p) {
            prev.insert(c)
        } else {
            prev
        }
    }
}

/// The set of strict descendants of `top` under an acyclic parent relation.
pub open spec fn subtree_of(parent: Seq<Option<u32>>, order: Seq<u32>, top: u32) -> Set<u32> {
    subtree_upto(parent, order, top, order.len() as int)
}

/// The direct children of `p` among indices `0 .. upto`, in index order:
/// the child order every pass uses.
pub open spec fn children_upto(parent: Seq<Option<u32>>, p: u32, upto: int) -> Seq<u32>
    decreases upto,
{
    if upto <= 0 {
        Seq::empty()
    } else {
        let rest = children_upto(parent, p, upto - 1);
        if parent[upto - 1] == Some(p) {
            rest.push((upto - 1) as u32)
        } else {
            rest
        }
    }
}

/// The direct children of `p`, in index order.
pub open spec fn children_of(parent: Seq<Option<u32>>, p: u32) -> Seq<u32> {
    children_upto(parent, p, parent.len() as int)
}


/// Orphaning the node at position `pos` of a valid topological order, and
/// dropping it from the order, leaves a valid topological order: its
/// children become constraint-free once their parent is a root, and every
/// other relative position is preserved.
pub proof fn lemma_topo_orphan(parent: Seq<Option<u32>>, order: Seq<u32>, pos: int)
    requires
        topo_ok(parent, order),
        0 <= pos < order.len(),
        parent.len() <= 0x1_0000_0000,
        forall|i: int| 0 <= i < parent.len() && parent[i] is Some ==> 0 <= (#[trigger] parent[i]).unwrap() < parent.len(),
    ensures
        topo_ok(parent.update(order[pos] as int, None), order.remove(pos)),
{
    let c = order[pos];
    let p2 = parent.update(c as int, None);
    let o2 = order.remove(pos);
    assert forall|a: int, b: int| 0 <= a < b < o2.len() implies o2[a] != o2[b] by {
        let a0 = if a < pos { a } else { a + 1 };
        let b0 = if b < pos { b } else { b + 1 };
        assert(o2[a] == order[a0] && o2[b] == order[b0]);
    }
    assert(o2.no_duplicates());
    assert forall|k: int| 0 <= k < o2.len() implies (#[trigger] o2[k]) < p2.len()
        && p2[o2[k] as int] is Some by {
        let k0 = if k < pos { k } else { k + 1 };
        assert(o2[k] == order[k0]);
        assert(order[k0] != c) by {
            assert(order.no_duplicates());
        }
    }
    assert forall|k: int| 0 <= k < o2.len() implies {
        let p = p2[#[trigger] o2[k] as int].unwrap();
        p2[p as int] is Some ==> exists|j: int| 0 <= j < k && o2[j] == p
    } by {
        let k0 = if k < pos { k } else { k + 1 };
        assert(o2[k] == order[k0]);
        assert(o2[k] != c);
        let p = p2[o2[k] as int].unwrap();
        assert(p == parent[o2[k] as int].unwrap());
        assert(0 <= p < parent.len());
        if p2[p as int] is Some {
            assert(p != c);
            assert(parent[p as int] is Some);
            let j0 = choose|j0: int| 0 <= j0 < k0 && order[j0] == p;
            assert(j0 != pos);
            let j = if j0 < pos { j0 } else { j0 - 1 };
            assert(o2[j] == order[j0]);
            assert(0 <= j < k && o2[j] == p);
        }
    }
    assert forall|i: int| 0 <= i < p2.len() && p2[i] is Some implies #[trigger] o2.contains(i as u32) by {
        assert(p2[c as int] is None);
        assert(i != c as int);
        assert(parent[i] is Some);
        assert(order.contains(i as u32));
        let j0 = choose|j0: int| 0 <= j0 < order.len() && order[j0] == i as u32;
        assert(j0 != pos) by {
            assert(i as u32 != c);
        }
        let j = if j0 < pos { j0 } else { j0 - 1 };
        assert(o2[j] == order[j0]);
    }
}


/// Every node the subtree scan marks stands somewhere in the order.
pub proof fn lemma_subtree_members(parent: Seq<Option<u32>>, order: Seq<u32>, top: u32, j: int)
    requires
        0 <= j <= order.len(),
    ensures
        forall|x: u32|
            #[trigger] subtree_upto(parent, order, top, j).contains(x) ==> exists|m: int|
                0 <= m < j && order[m] == x,
    decreases j,
{
    if j > 0 {
        lemma_subtree_members(parent, order, top, j - 1);
        assert forall|x: u32| #[trigger] subtree_upto(parent, order, top, j).contains(x)
            implies exists|m: int| 0 <= m < j && order[m] == x by {
            if subtree_upto(parent, order, top, j - 1).contains(x) {
                let m0 = choose|m0: int|
                    0 <= m0 < j - 1 && order[m0] == x;
                assert(0 <= m0 < j && order[m0] == x);
            } else {
                assert(order[j - 1] == x && 0 <= j - 1 < j);
            }
        }
    }
}

/// Once the scan has passed a node's own position, the node's membership in
/// the marked set no longer changes.
pub proof fn lemma_subtree_stable(parent: Seq<Option<u32>>, order: Seq<u32>, top: u32, k: int, j: int)
    requires
        order.no_duplicates(),
        0 <= k < order.len(),
        k + 1 <= j <= order.len(),
    ensures
        subtree_upto(parent, order, top, j).contains(order[k]) == subtree_upto(
            parent,
            order,
            top,
            k + 1,
        ).contains(order[k]),
    decreases j,
{
    if j > k + 1 {
        lemma_subtree_stable(parent, order, top, k, j - 1);
        assert(order[j - 1] != order[k]);
    }
}

/// The marked set satisfies the defining recurrence pointwise: a listed node
/// is a descendant of `top` exactly when its parent is `top` or itself a
/// descendant, and nothing outside the order is ever marked.
pub proof fn lemma_subtree_rec(parent: Seq<Option<u32>>, order: Seq<u32>, top: u32)
    requires
        topo_sorted(parent, order),
    ensures
        forall|k: int|
            0 <= k < order.len() ==> {
                let p = parent[#[trigger] order[k] as int].unwrap();
                subtree_of(parent, order, top).contains(order[k]) == (p == top || subtree_of(
                    parent,
                    order,
                    top,
                ).contains(p))
            },
        forall|x: u32|
            #[trigger] subtree_of(parent, order, top).contains(x) ==> order.contains(x),
{
    let full = subtree_of(parent, order, top);
    lemma_subtree_members(parent, order, top, order.len() as int);
    assert forall|x: u32| #[trigger] full.contains(x) implies order.contains(x) by {
        let m = choose|m: int| 0 <= m < order.len() && order[m] == x;
        assert(order[m] == x);
    }
    assert forall|k: int| 0 <= k < order.len() implies {
        let p = parent[#[trigger] order[k] as int].unwrap();
        full.contains(order[k]) == (p == top || full.contains(p))
    } by {
        let x = order[k];
        let p = parent[x as int].unwrap();
        lemma_subtree_stable(parent, order, top, k, order.len() as int);
        lemma_subtree_members(parent, order, top, k);
        assert(!subtree_upto(parent, order, top, k).contains(x)) by {
            if subtree_upto(parent, order, top, k).contains(x) {
                let m = choose|m: int| 0 <= m < k && order[m] == x;
                assert(order[m] == order[k] && m != k);
            }
        }
        assert(subtree_upto(parent, order, top, k + 1).contains(x) == (p == top
            || subtree_upto(parent, order, top, k).contains(p)));
        if parent[p as int] is Some {
            let kp = choose|j: int| 0 <= j < k && order[j] == p;
            lemma_subtree_stable(parent, order, top, kp, k);
            lemma_subtree_stable(parent, order, top, kp, order.len() as int);
            assert(subtree_upto(parent, order, top, k).contains(p) == full.contains(p));
        } else {
            assert(!subtree_upto(parent, order, top, k).contains(p) && !full.contains(p)) by {
                lemma_subtree_members(parent, order, top, k);
                if subtree_upto(parent, order, top, k).contains(p) {
                    let m = choose|m: int| 0 <= m < k && order[m] == p;
                    assert(parent[order[m] as int] is Some);
                }
                if full.contains(p) {
                    let m = choose|m: int| 0 <= m < order.len() && order[m] == p;
                    assert(parent[order[m] as int] is Some);
                }
            }
        }
    }
}

pub struct Scene {
    pub alive: Vec<bool>,
    pub generation: Vec<u32>,
    pub parent: Vec<Option<u32>>,
    pub order: Vec<u32>,
    pub position: Vec<Option<Position>>,
    pub text_block: Vec<Option<TextBlock>>,
    pub visible: Vec<Option<bool>>,
    pub zlevel: Vec<Option<i64>>,
    pub stacking_context: Vec<Option<StackingContext>>,
    pub stacking_rule: Vec<Option<StackingRule>>,
    pub centered: Vec<Option<Centered>>,
    pub border: Vec<Option<Border>>,
    pub visible_if_child: Vec<bool>,
    pub global_position: Vec<Option<Position>>,
}

impl View for Scene {
    type V = SceneView;

    open spec fn view(&self) -> SceneView {
        SceneView {
            alive: self.alive@,
            generation: self.generation@,
            parent: self.parent@,
            order: self.order@,
            position: self.position@,
            text_block: self.text_block@.map_values(|o: Option<TextBlock>| match o {
                Some(t) => Some(t@),
                None => None,
            }),
            visible: self.visible@,
            zlevel: self.zlevel@,
            stacking_context: self.stacking_context@,
            stacking_rule: self.stacking_rule@,
            centered: self.centered@,
            border: self.border@,
            visible_if_child: self.visible_if_child@,
            global_position: self.global_position@,
        }
    }
}

impl Scene {
    /// Number of arena slots (live or dead).
    pub open spec fn n(self) -> int {
        self@.alive.len() as int
    }

    /// A dead slot carries nothing: no attributes, no parent, and no node
    /// names it as parent (the latter follows from parents being alive).
    pub open spec fn slot_clean(self, i: int) -> bool {
        view_slot_clean(self@, i)
    }

    /// Stored coordinates and extents stay inside the ranges the layout
    /// arithmetic is proved safe for.
    pub open spec fn slot_bounded(self, i: int) -> bool {
        view_slot_bounded(self@, i)
    }

    pub open spec fn wf(self) -> bool {
        &&& self.n() <= MAX_NODES
        &&& self@.generation.len() == self.n()
        &&& self@.parent.len() == self.n()
        &&& self@.position.len() == self.n()
        &&& self@.text_block.len() == self.n()
        &&& self@.visible.len() == self.n()
        &&& self@.zlevel.len() == self.n()
        &&& self@.stacking_context.len() == self.n()
        &&& self@.stacking_rule.len() == self.n()
        &&& self@.centered.len() == self.n()
        &&& self@.border.len() == self.n()
        &&& self@.visible_if_child.len() == self.n()
        &&& self@.global_position.len() == self.n()
        &&& forall|i: int|
            0 <= i < self.n() && self@.parent[i] is Some ==> {
                let p = (#[trigger] self@.parent[i]).unwrap() as int;
                0 <= p < self.n() && p != i && self@.alive[p] && self@.alive[i]
            }
        &&& forall|i: int| 0 <= i < self.n() && !self@.alive[i] ==> #[trigger] self.slot_clean(i)
        &&& forall|i: int| 0 <= i < self.n() ==> #[trigger] self.slot_bounded(i)
        &&& topo_ok(self@.parent, self@.order)
    }

    /// The handle names a live slot of the generation it was made with.
    pub open spec fn valid(self, e: Entity) -> bool {
        &&& e.index < self.n()
        &&& self@.alive[e.index as int]
        &&& self@.generation[e.index as int] == e.generation
    }

    pub fn new() -> (r: Self)
        ensures
            r.wf(),
            r.n() == 0,
    {
        Scene {
            alive: Vec::new(),
            generation: Vec::new(),
            parent: Vec::new(),
            order: Vec::new(),
            position: Vec::new(),
            text_block: Vec::new(),
            visible: Vec::new(),
            zlevel: Vec::new(),
            stacking_context: Vec::new(),
            stacking_rule: Vec::new(),
            centered: Vec::new(),
            border: Vec::new(),
            visible_if_child: Vec::new(),
            global_position: Vec::new(),
        }
    }

    pub fn node_count(&self) -> (r: usize)
        ensures
            r == self.n(),
    {
        self.alive.len()
    }

    pub fn is_alive(&self, e: Entity) -> (r: bool)
        requires
            self.wf(),
        ensures
            r == self.valid(e),
    {
        (e.index as usize) < self.alive.len() && self.alive[e.index as usize]
            && self.generation[e.index as usize] == e.generation
    }

    /// Makes a new node, reusing the lowest dead slot if there is one, else
    /// growing the arena. Returns `None` exactly when the arena is full of
    /// live nodes.
    pub fn create_node(&mut self) -> (r: Option<Entity>)
        requires
            old(self).wf(),
        ensures
            final(self).wf(),
            (r is None) == (old(self).n() == MAX_NODES && (forall|i: int|
                0 <= i < old(self).n() ==> old(self)@.alive[i])),
            r is None ==> *final(self) == *old(self),
            r matches Some(e) ==> {
                &&& final(self).valid(e)
                &&& final(self).slot_clean(e.index as int)
                &&& old(self).n() <= final(self).n() <= old(self).n() + 1
                &&& e.index < final(self).n()
                &&& (e.index as int == old(self).n() || !old(self)@.alive[e.index as int])
                &&& final(self)@.alive =~= if e.index as int == old(self).n() {
                    old(self)@.alive.push(true)
                } else {
                    old(self)@.alive.update(e.index as int, true)
                }
                &&& final(self)@.parent =~= if e.index as int == old(self).n() {
                    old(self)@.parent.push(None)
                } else {
                    old(self)@.parent
                }
                &&& final(self)@.order == old(self)@.order
                &&& forall|i: int|
                    0 <= i < old(self).n() && i != e.index as int ==> final(self)@.alive[i]
                        == old(self)@.alive[i] && final(self)@.generation[i]
                        == old(self)@.generation[i] && final(self)@.parent[i] == old(self)@.parent[i]
                        && final(self)@.position[i] == old(self)@.position[i]
                        && final(self)@.text_block[i] == old(self)@.text_block[i]
                        && final(self)@.visible[i] == old(self)@.visible[i]
                        && final(self)@.zlevel[i] == old(self)@.zlevel[i]
                        && final(self)@.stacking_context[i] == old(self)@.stacking_context[i]
                        && final(self)@.stacking_rule[i] == old(self)@.stacking_rule[i]
                        && final(self)@.centered[i] == old(self)@.centered[i]
                        && final(self)@.border[i] == old(self)@.border[i]
                        && final(self)@.visible_if_child[i] == old(self)@.visible_if_child[i]
                        && final(self)@.global_position[i] == old(self)@.global_position[i]
            },
    {
        let n = self.alive.len();
        let mut i: usize = 0;
        #[verifier::loop_isolation(false)]
        while i < n
            invariant
                i <= n,
                *self == *old(self),
                forall|j: int| 0 <= j < i ==> self@.alive[j],
            decreases n - i,
        {
            if !self.alive[i] {
                let g = self.generation[i];
                self.alive[i] = true;
                proof {
                    assert(old(self).slot_clean(i as int));
                    assert forall|j: int| 0 <= j < self.n() && self@.parent[j] is Some implies {
                        let p = (#[trigger] self@.parent[j]).unwrap() as int;
                        0 <= p < self.n() && p != j && self@.alive[p] && self@.alive[j]
                    } by {
                        assert(old(self)@.parent[j] is Some);
                    }
                    assert forall|j: int| 0 <= j < self.n() && !self@.alive[j] implies
                        #[trigger] self.slot_clean(j) by {
                        assert(old(self).slot_clean(j));
                    }
                    assert forall|j: int| 0 <= j < self.n() implies #[trigger] self.slot_bounded(j) by {
                        assert(old(self).slot_bounded(j));
                    }
                    assert(self@.parent =~= old(self)@.parent);
                    assert(self@.order =~= old(self)@.order);
                    assert(topo_ok(self@.parent, self@.order));
                }
                return Some(Entity { index: i as u32, generation: g });
            }
            i += 1;
        }
        if n == MAX_NODES {
            return None;
        }
        self.alive.push(true);
        self.generation.push(0);
        self.parent.push(None);
        self.position.push(None);
        self.text_block.push(None);
        self.visible.push(None);
        self.zlevel.push(None);
        self.stacking_context.push(None);
        self.stacking_rule.push(None);
        self.centered.push(None);
        self.border.push(None);
        self.visible_if_child.push(false);
        self.global_position.push(None);
        proof {
            let sn = self.n();
            assert forall|j: int| 0 <= j < sn && self@.parent[j] is Some implies {
                let p = (#[trigger] self@.parent[j]).unwrap() as int;
                0 <= p < sn && p != j && self@.alive[p] && self@.alive[j]
            } by {
                assert(j < old(self).n());
                assert(old(self)@.parent[j] is Some);
            }
            assert forall|j: int| 0 <= j < sn && !self@.alive[j] implies #[trigger] self.slot_clean(j) by {
                assert(j < old(self).n());
                assert(old(self).slot_clean(j));
            }
            assert forall|j: int| 0 <= j < sn implies #[trigger] self.slot_bounded(j) by {
                if j < old(self).n() {
                    assert(old(self).slot_bounded(j));
                }
            }
            assert(topo_sorted(self@.parent, self@.order)) by {
                assert forall|k: int| 0 <= k < self@.order.len() implies (#[trigger] self@.order[k])
                    < self@.parent.len() && self@.parent[self@.order[k] as int] is Some by {
                    assert(old(self)@.order[k] < old(self)@.parent.len());
                    assert(old(self)@.parent[old(self)@.order[k] as int] is Some);
                }
                assert forall|k: int| 0 <= k < self@.order.len() implies {
                    let p = self@.parent[#[trigger] self@.order[k] as int].unwrap();
                    self@.parent[p as int] is Some ==> exists|j: int| 0 <= j < k && self@.order[j] == p
                } by {
                    let p = self@.parent[self@.order[k] as int].unwrap();
                    assert(old(self)@.parent[old(self)@.order[k] as int] is Some);
                    assert(p == old(self)@.parent[old(self)@.order[k] as int].unwrap());
                    if self@.parent[p as int] is Some {
                        assert(old(self)@.parent[p as int] is Some);
                    }
                }
            }
            assert(topo_complete(self@.parent, self@.order)) by {
                assert forall|i2: int| 0 <= i2 < self@.parent.len() && self@.parent[i2] is Some
                    implies #[trigger] self@.order.contains(i2 as u32) by {
                    if i2 < old(self)@.parent.len() {
                        assert(old(self)@.order.contains(i2 as u32));
                    }
                }
            }
        }
        Some(Entity { index: n as u32, generation: 0 })
    }

    /// Attaches or overwrites the `position` attribute of live node `i`;
    /// returns whether the node already had one.
    pub fn set_position(&mut self, i: u32, v: Position) -> (was: bool)
        requires
            old(self).wf(),
            i < old(self).n(),
            old(self)@.alive[i as int],
            -MAX_EXTENT <= v.x <= MAX_EXTENT,
            -MAX_EXTENT <= v.y <= MAX_EXTENT,
        ensures
            final(self).wf(),
            was == (old(self)@.position[i as int] is Some),
            final(self)@ == (SceneView { position: old(self)@.position.update(i as int, Some(v)), ..old(self)@ }),
    {
        let was = self.position[i as usize].is_some();
        self.position[i as usize] = Some(v);
        proof {
            assert(self@.position =~= old(self)@.position.update(i as int, Some(v)));
            assert forall|j: int| 0 <= j < self.n() && !self@.alive[j] implies #[trigger] self.slot_clean(j) by {
                assert(old(self).slot_clean(j));
            }
            assert forall|j: int| 0 <= j < self.n() implies #[trigger] self.slot_bounded(j) by {
                assert(old(self).slot_bounded(j));
            }
        }
        was
    }

    /// Attaches or overwrites the `text_block` attribute of live node `i`;
    /// returns whether the node already had one.
    pub fn set_text_block(&mut self, i: u32, v: TextBlock) -> (was: bool)
        requires
            old(self).wf(),
            i < old(self).n(),
            old(self)@.alive[i as int],
            -MAX_EXTENT <= v@.width <= MAX_EXTENT,
            -MAX_EXTENT <= v@.height <= MAX_EXTENT,
        ensures
            final(self).wf(),
            was == (old(self)@.text_block[i as int] is Some),
            final(self)@ == (SceneView { text_block: old(self)@.text_block.update(i as int, Some(v@)), ..old(self)@ }),
    {
        let was = self.text_block[i as usize].is_some();
        self.text_block[i as usize] = Some(v);
        proof {
            assert(self@.text_block =~= old(self)@.text_block.update(i as int, Some(v@)));
            assert forall|j: int| 0 <= j < self.n() && !self@.alive[j] implies #[trigger] self.slot_clean(j) by {
                assert(old(self).slot_clean(j));
            }
            assert forall|j: int| 0 <= j < self.n() implies #[trigger] self.slot_bounded(j) by {
                assert(old(self).slot_bounded(j));
            }
        }
        was
    }

    /// Attaches or overwrites the `visible` attribute of live node `i`;
    /// returns whether the node already had one.
    pub fn set_visible(&mut self, i: u32, v: bool) -> (was: bool)
        requires
            old(self).wf(),
            i < old(self).n(),
            old(self)@.alive[i as int],
        ensures
            final(self).wf(),
            was == (old(self)@.visible[i as int] is Some),
            final(self)@ == (SceneView { visible: old(self)@.visible.update(i as int, Some(v)), ..old(self)@ }),
    {
        let was = self.visible[i as usize].is_some();
        self.visible[i as usize] = Some(v);
        proof {
            assert(self@.visible =~= old(self)@.visible.update(i as int, Some(v)));
            assert forall|j: int| 0 <= j < self.n() && !self@.alive[j] implies #[trigger] self.slot_clean(j) by {
                assert(old(self).slot_clean(j));
            }
            assert forall|j: int| 0 <= j < self.n() implies #[trigger] self.slot_bounded(j) by {
                assert(old(self).slot_bounded(j));
            }
        }
        was
    }

    /// Attaches or overwrites the `zlevel` attribute of live node `i`;
    /// returns whether the node already had one.
    pub fn set_zlevel(&mut self, i: u32, v: i64) -> (was: bool)
        requires
            old(self).wf(),
            i < old(self).n(),
            old(self)@.alive[i as int],
        ensures
            final(self).wf(),
            was == (old(self)@.zlevel[i as int] is Some),
            final(self)@ == (SceneView { zlevel: old(self)@.zlevel.update(i as int, Some(v)), ..old(self)@ }),
    {
        let was = self.zlevel[i as usize].is_some();
        self.zlevel[i as usize] = Some(v);
        proof {
            assert(self@.zlevel =~= old(self)@.zlevel.update(i as int, Some(v)));
            assert forall|j: int| 0 <= j < self.n() && !self@.alive[j] implies #[trigger] self.slot_clean(j) by {
                assert(old(self).slot_clean(j));
            }
            assert forall|j: int| 0 <= j < self.n() implies #[trigger] self.slot_bounded(j) by {
                assert(old(self).slot_bounded(j));
            }
        }
        was
    }

    /// Attaches or overwrites the `stacking_context` attribute of live node `i`;
    /// returns whether the node already had one.
    pub fn set_stacking_context(&mut self, i: u32, v: StackingContext) -> (was: bool)
        requires
            old(self).wf(),
            i < old(self).n(),
            old(self)@.alive[i as int],
        ensures
            final(self).wf(),
            was == (old(self)@.stacking_context[i as int] is Some),
            final(self)@ == (SceneView { stacking_context: old(self)@.stacking_context.update(i as int, Some(v)), ..old(self)@ }),
    {
        let was = self.stacking_context[i as usize].is_some();
        self.stacking_context[i as usize] = Some(v);
        proof {
            assert(self@.stacking_context =~= old(self)@.stacking_context.update(i as int, Some(v)));
            assert forall|j: int| 0 <= j < self.n() && !self@.alive[j] implies #[trigger] self.slot_clean(j) by {
                assert(old(self).slot_clean(j));
            }
            assert forall|j: int| 0 <= j < self.n() implies #[trigger] self.slot_bounded(j) by {
                assert(old(self).slot_bounded(j));
            }
        }
        was
    }

    /// Attaches or overwrites the `stacking_rule` attribute of live node `i`;
    /// returns whether the node already had one.
    pub fn set_stacking_rule(&mut self, i: u32, v: StackingRule) -> (was: bool)
        requires
            old(self).wf(),
            i < old(self).n(),
            old(self)@.alive[i as int],
            v.flex <= crate::components::MAX_FLEX,
            v.min_width matches Some(m) ==> -crate::components::MAX_RULE_BOUND <= m
                <= crate::components::MAX_RULE_BOUND,
            v.max_width matches Some(m) ==> -crate::components::MAX_RULE_BOUND <= m
                <= crate::components::MAX_RULE_BOUND,
            v.min_height matches Some(m) ==> -crate::components::MAX_RULE_BOUND <= m
                <= crate::components::MAX_RULE_BOUND,
            v.max_height matches Some(m) ==> -crate::components::MAX_RULE_BOUND <= m
                <= crate::components::MAX_RULE_BOUND,
        ensures
            final(self).wf(),
            was == (old(self)@.stacking_rule[i as int] is Some),
            final(self)@ == (SceneView { stacking_rule: old(self)@.stacking_rule.update(i as int, Some(v)), ..old(self)@ }),
    {
        let was = self.stacking_rule[i as usize].is_some();
        self.stacking_rule[i as usize] = Some(v);
        proof {
            assert(self@.stacking_rule =~= old(self)@.stacking_rule.update(i as int, Some(v)));
            assert forall|j: int| 0 <= j < self.n() && !self@.alive[j] implies #[trigger] self.slot_clean(j) by {
                assert(old(self).slot_clean(j));
            }
            assert forall|j: int| 0 <= j < self.n() implies #[trigger] self.slot_bounded(j) by {
                assert(old(self).slot_bounded(j));
            }
        }
        was
    }

    /// Attaches or overwrites the `centered` attribute of live node `i`;
    /// returns whether the node already had one.
    pub fn set_centered(&mut self, i: u32, v: Centered) -> (was: bool)
        requires
            old(self).wf(),
            i < old(self).n(),
            old(self)@.alive[i as int],
        ensures
            final(self).wf(),
            was == (old(self)@.centered[i as int] is Some),
            final(self)@ == (SceneView { centered: old(self)@.centered.update(i as int, Some(v)), ..old(self)@ }),
    {
        let was = self.centered[i as usize].is_some();
        self.centered[i as usize] = Some(v);
        proof {
            assert(self@.centered =~= old(self)@.centered.update(i as int, Some(v)));
            assert forall|j: int| 0 <= j < self.n() && !self@.alive[j] implies #[trigger] self.slot_clean(j) by {
                assert(old(self).slot_clean(j));
            }
            assert forall|j: int| 0 <= j < self.n() implies #[trigger] self.slot_bounded(j) by {
                assert(old(self).slot_bounded(j));
            }
        }
        was
    }

    /// Attaches or overwrites the `border` attribute of live node `i`;
    /// returns whether the node already had one.
    pub fn set_border(&mut self, i: u32, v: Border) -> (was: bool)
        requires
            old(self).wf(),
            i < old(self).n(),
            old(self)@.alive[i as int],
        ensures
            final(self).wf(),
            was == (old(self)@.border[i as int] is Some),
            final(self)@ == (SceneView { border: old(self)@.border.update(i as int, Some(v)), ..old(self)@ }),
    {
        let was = self.border[i as usize].is_some();
        self.border[i as usize] = Some(v);
        proof {
            assert(self@.border =~= old(self)@.border.update(i as int, Some(v)));
            assert forall|j: int| 0 <= j < self.n() && !self@.alive[j] implies #[trigger] self.slot_clean(j) by {
                assert(old(self).slot_clean(j));
            }
            assert forall|j: int| 0 <= j < self.n() implies #[trigger] self.slot_bounded(j) by {
                assert(old(self).slot_bounded(j));
            }
        }
        was
    }

    /// Attaches or overwrites the `global_position` attribute of live node `i`;
    /// returns whether the node already had one.
    pub fn set_global_position(&mut self, i: u32, v: Position) -> (was: bool)
        requires
            old(self).wf(),
            i < old(self).n(),
            old(self)@.alive[i as int],
            -MAX_GLOBAL <= v.x <= MAX_GLOBAL,
            -MAX_GLOBAL <= v.y <= MAX_GLOBAL,
        ensures
            final(self).wf(),
            was == (old(self)@.global_position[i as int] is Some),
            final(self)@ == (SceneView { global_position: old(self)@.global_position.update(i as int, Some(v)), ..old(self)@ }),
    {
        let was = self.global_position[i as usize].is_some();
        self.global_position[i as usize] = Some(v);
        proof {
            assert(self@.global_position =~= old(self)@.global_position.update(i as int, Some(v)));
            assert forall|j: int| 0 <= j < self.n() && !self@.alive[j] implies #[trigger] self.slot_clean(j) by {
                assert(old(self).slot_clean(j));
            }
            assert forall|j: int| 0 <= j < self.n() implies #[trigger] self.slot_bounded(j) by {
                assert(old(self).slot_bounded(j));
            }
        }
        was
    }

    /// Detaches the `position` attribute of live node `i`, if any; returns
    /// whether one was present.
    pub fn remove_position(&mut self, i: u32) -> (was: bool)
        requires
            old(self).wf(),
            i < old(self).n(),
            old(self)@.alive[i as int],
        ensures
            final(self).wf(),
            was == (old(self)@.position[i as int] is Some),
            final(self)@ == (SceneView { position: old(self)@.position.update(i as int, None), ..old(self)@ }),
    {
        let was = self.position[i as usize].is_some();
        self.position[i as usize] = None;
        proof {
            assert(self@.position =~= old(self)@.position.update(i as int, None));
            assert forall|j: int| 0 <= j < self.n() && !self@.alive[j] implies #[trigger] self.slot_clean(j) by {
                assert(old(self).slot_clean(j));
            }
            assert forall|j: int| 0 <= j < self.n() implies #[trigger] self.slot_bounded(j) by {
                assert(old(self).slot_bounded(j));
            }
        }
        was
    }

    /// Detaches the `text_block` attribute of live node `i`, if any; returns
    /// whether one was present.
    pub fn remove_text_block(&mut self, i: u32) -> (was: bool)
        requires
            old(self).wf(),
            i < old(self).n(),
            old(self)@.alive[i as int],
        ensures
            final(self).wf(),
            was == (old(self)@.text_block[i as int] is Some),
            final(self)@ == (SceneView { text_block: old(self)@.text_block.update(i as int, None), ..old(self)@ }),
    {
        let was = self.text_block[i as usize].is_some();
        self.text_block[i as usize] = None;
        proof {
            assert(self@.text_block =~= old(self)@.text_block.update(i as int, None));
            assert forall|j: int| 0 <= j < self.n() && !self@.alive[j] implies #[trigger] self.slot_clean(j) by {
                assert(old(self).slot_clean(j));
            }
            assert forall|j: int| 0 <= j < self.n() implies #[trigger] self.slot_bounded(j) by {
                assert(old(self).slot_bounded(j));
            }
        }
        was
    }

    /// Detaches the `visible` attribute of live node `i`, if any; returns
    /// whether one was present.
    pub fn remove_visible(&mut self, i: u32) -> (was: bool)
        requires
            old(self).wf(),
            i < old(self).n(),
            old(self)@.alive[i as int],
        ensures
            final(self).wf(),
            was == (old(self)@.visible[i as int] is Some),
            final(self)@ == (SceneView { visible: old(self)@.visible.update(i as int, None), ..old(self)@ }),
    {
        let was = self.visible[i as usize].is_some();
        self.visible[i as usize] = None;
        proof {
            assert(self@.visible =~= old(self)@.visible.update(i as int, None));
            assert forall|j: int| 0 <= j < self.n() && !self@.alive[j] implies #[trigger] self.slot_clean(j) by {
                assert(old(self).slot_clean(j));
            }
            assert forall|j: int| 0 <= j < self.n() implies #[trigger] self.slot_bounded(j) by {
                assert(old(self).slot_bounded(j));
            }
        }
        was
    }

    /// Detaches the `zlevel` attribute of live node `i`, if any; returns
    /// whether one was present.
    pub fn remove_zlevel(&mut self, i: u32) -> (was: bool)
        requires
            old(self).wf(),
            i < old(self).n(),
            old(self)@.alive[i as int],
        ensures
            final(self).wf(),
            was == (old(self)@.zlevel[i as int] is Some),
            final(self)@ == (SceneView { zlevel: old(self)@.zlevel.update(i as int, None), ..old(self)@ }),
    {
        let was = self.zlevel[i as usize].is_some();
        self.zlevel[i as usize] = None;
        proof {
            assert(self@.zlevel =~= old(self)@.zlevel.update(i as int, None));
            assert forall|j: int| 0 <= j < self.n() && !self@.alive[j] implies #[trigger] self.slot_clean(j) by {
                assert(old(self).slot_clean(j));
            }
            assert forall|j: int| 0 <= j < self.n() implies #[trigger] self.slot_bounded(j) by {
                assert(old(self).slot_bounded(j));
            }
        }
        was
    }

    /// Detaches the `global_position` attribute of live node `i`, if any; returns
    /// whether one was present.
    pub fn remove_global_position(&mut self, i: u32) -> (was: bool)
        requires
            old(self).wf(),
            i < old(self).n(),
            old(self)@.alive[i as int],
        ensures
            final(self).wf(),
            was == (old(self)@.global_position[i as int] is Some),
            final(self)@ == (SceneView { global_position: old(self)@.global_position.update(i as int, None), ..old(self)@ }),
    {
        let was = self.global_position[i as usize].is_some();
        self.global_position[i as usize] = None;
        proof {
            assert(self@.global_position =~= old(self)@.global_position.update(i as int, None));
            assert forall|j: int| 0 <= j < self.n() && !self@.alive[j] implies #[trigger] self.slot_clean(j) by {
                assert(old(self).slot_clean(j));
            }
            assert forall|j: int| 0 <= j < self.n() implies #[trigger] self.slot_bounded(j) by {
                assert(old(self).slot_bounded(j));
            }
        }
        was
    }

    /// Marks or unmarks node `i` as deriving its visibility from its
    /// children.
    pub fn set_visible_if_child(&mut self, i: u32, v: bool)
        requires
            old(self).wf(),
            i < old(self).n(),
            old(self)@.alive[i as int],
        ensures
            final(self).wf(),
            final(self)@ == (SceneView { visible_if_child: old(self)@.visible_if_child.update(i as int, v), ..old(self)@ }),
    {
        self.visible_if_child[i as usize] = v;
        proof {
            assert(self@.visible_if_child =~= old(self)@.visible_if_child.update(i as int, v));
            assert forall|j: int| 0 <= j < self.n() && !self@.alive[j] implies #[trigger] self.slot_clean(j) by {
                assert(old(self).slot_clean(j));
            }
            assert forall|j: int| 0 <= j < self.n() implies #[trigger] self.slot_bounded(j) by {
                assert(old(self).slot_bounded(j));
            }
        }
    }


    /// Detaches node `i` from its parent, making it a root; its own children
    /// keep it as parent. Returns whether it had a parent.
    pub fn clear_parent(&mut self, i: u32) -> (was: bool)
        requires
            old(self).wf(),
            i < old(self).n(),
            old(self)@.alive[i as int],
        ensures
            final(self).wf(),
            was == (old(self)@.parent[i as int] is Some),
            final(self)@.parent =~= old(self)@.parent.update(i as int, None),
            final(self)@ == (SceneView {
                parent: final(self)@.parent,
                order: final(self)@.order,
                ..old(self)@
            }),
            !was ==> final(self)@.order == old(self)@.order,
    {
        if self.parent[i as usize].is_none() {
            proof {
                assert(self@.parent =~= old(self)@.parent.update(i as int, None));
            }
            return false;
        }
        proof {
            assert(self@.parent[i as int] is Some);
            assert(self@.order.contains((i as int) as u32));
        }
        let ghost oj = choose|j: int| 0 <= j < self@.order.len() && self@.order[j] == i;
        proof {
            assert(0 <= oj < self@.order.len() && self@.order[oj] == i);
        }
        let order_len = self.order.len();
        let mut k: usize = 0;
        #[verifier::loop_isolation(false)]
        while self.order[k] != i
            invariant
                0 <= k <= oj,
                oj < order_len as int,
                order_len == self@.order.len(),
                self@.order[oj] == i,
            decreases oj - k,
        {
            proof {
                assert(self@.order[k as int] != i);
                assert(k < oj);
            }
            k += 1;
        }
        let ghost pre = self@;
        self.parent[i as usize] = None;
        self.order.remove(k);
        proof {
            assert(pre.order[k as int] == i);
            assert forall|j: int| 0 <= j < pre.parent.len() && pre.parent[j] is Some implies
                0 <= (#[trigger] pre.parent[j]).unwrap() < pre.parent.len() by {
                assert(old(self)@.parent[j] is Some);
            }
            lemma_topo_orphan(pre.parent, pre.order, k as int);
            assert forall|j: int| 0 <= j < self.n() && self@.parent[j] is Some implies {
                let p = (#[trigger] self@.parent[j]).unwrap() as int;
                0 <= p < self.n() && p != j && self@.alive[p] && self@.alive[j]
            } by {
                assert(old(self)@.parent[j] is Some);
            }
            assert forall|j: int| 0 <= j < self.n() && !self@.alive[j] implies #[trigger] self.slot_clean(j) by {
                assert(old(self).slot_clean(j));
            }
            assert forall|j: int| 0 <= j < self.n() implies #[trigger] self.slot_bounded(j) by {
                assert(old(self).slot_bounded(j));
            }
            assert(self@.parent =~= old(self)@.parent.update(i as int, None));
        }
        true
    }


    /// Makes `t` the parent of `c`, re-parenting `c` if it already had one,
    /// and keeps the topological order valid. Refused exactly when the edge
    /// would make `c` its own ancestor: when `t` is `c` itself or one of
    /// `c`'s descendants.
    #[verifier::rlimit(100)]
    #[verifier::spinoff_prover]
    pub fn set_parent(&mut self, c: u32, t: u32) -> (r: Result<(), TuiError>)
        requires
            old(self).wf(),
            c < old(self).n(),
            t < old(self).n(),
            old(self)@.alive[c as int],
            old(self)@.alive[t as int],
        ensures
            final(self).wf(),
            (r is Err) == (t == c || subtree_of(old(self)@.parent, old(self)@.order, c).contains(t)),
            r matches Err(e) ==> e == (TuiError::HierarchyCycle { node: c }) && *final(self)
                == *old(self),
            r is Ok ==> final(self)@.parent =~= old(self)@.parent.update(c as int, Some(t))
                && final(self)@ == (SceneView {
                parent: final(self)@.parent,
                order: final(self)@.order,
                ..old(self)@
            }),
    {
        let ghost pre = self@;
        if t == c {
            return Err(TuiError::HierarchyCycle { node: c });
        }
        let n = self.alive.len();
        let mut flags: Vec<bool> = Vec::new();
        let mut z: usize = 0;
        #[verifier::loop_isolation(false)]
        while z < n
            invariant
                flags@.len() == z,
                z <= n,
                forall|i: int| 0 <= i < z ==> !flags@[i],
            decreases n - z,
        {
            flags.push(false);
            z += 1;
        }
        let olen = self.order.len();
        let mut k: usize = 0;
        #[verifier::loop_isolation(false)]
        while k < olen
            invariant
                flags@.len() == n,
                k <= olen,
                olen == pre.order.len(),
                forall|i: int|
                    0 <= i < n ==> #[trigger] flags@[i] == subtree_upto(
                        pre.parent,
                        pre.order,
                        c,
                        k as int,
                    ).contains(i as u32),
            decreases olen - k,
        {
            let x = self.order[k];
            proof {
                assert(pre.order[k as int] == x);
                assert(x < pre.parent.len() && pre.parent[x as int] is Some);
                assert(self@.parent[x as int] is Some);
            }
            let px = self.parent[x as usize].unwrap();
            proof {
                assert(0 <= px < self.n());
            }
            let fx = px == c || flags[px as usize];
            flags[x as usize] = fx;
            proof {
                let stepped = subtree_upto(pre.parent, pre.order, c, k + 1);
                let prev = subtree_upto(pre.parent, pre.order, c, k as int);
                assert(fx == (px == c || prev.contains(px)));
                assert(!prev.contains(x)) by {
                    lemma_subtree_members(pre.parent, pre.order, c, k as int);
                    if prev.contains(x) {
                        let m = choose|m: int| 0 <= m < k && pre.order[m] == x;
                        assert(pre.order[m] == pre.order[k as int] && m != k);
                    }
                }
                assert forall|i: int| 0 <= i < n implies #[trigger] flags@[i] == stepped.contains(
                    i as u32,
                ) by {
                    if i == x as int {
                        assert(stepped.contains(x) == fx);
                    } else {
                        assert(i as u32 != x);
                        assert(stepped.contains(i as u32) == prev.contains(i as u32));
                    }
                }
            }
            k += 1;
        }
        if flags[t as usize] {
            return Err(TuiError::HierarchyCycle { node: c });
        }
        proof {
            lemma_subtree_rec(pre.parent, pre.order, c);
        }
        let ghost p2 = pre.parent.update(c as int, Some(t));
        let ghost full = subtree_of(pre.parent, pre.order, c);
        let mut newo: Vec<u32> = Vec::new();
        k = 0;
        #[verifier::loop_isolation(false)]
        while k < olen
            invariant
                k <= olen,
                topo_sorted(p2, newo@),
                forall|m: int|
                    0 <= m < newo@.len() ==> (#[trigger] newo@[m]) != c && !flags@[newo@[m] as int]
                        && exists|j: int| 0 <= j < k && pre.order[j] == newo@[m],
                forall|j: int|
                    0 <= j < k && pre.order[j] != c && !flags@[pre.order[j] as int]
                        ==> newo@.contains(#[trigger] pre.order[j]),
            decreases olen - k,
        {
            let x = self.order[k];
            proof {
                assert(pre.order[k as int] == x);
                assert(x < pre.parent.len() && pre.parent[x as int] is Some);
            }
            if x != c && !flags[x as usize] {
                proof {
                    let p = pre.parent[x as int].unwrap();
                    assert(0 <= p < self.n());
                    assert(full.contains(x) == false);
                    assert(p != c && !full.contains(p));
                    assert(p2[x as int] == pre.parent[x as int]);
                    // the new element cannot already stand in `newo`
                    assert(!newo@.contains(x)) by {
                        if newo@.contains(x) {
                            let m = choose|m: int| 0 <= m < newo@.len() && newo@[m] == x;
                            let j = choose|j: int| 0 <= j < k && pre.order[j] == newo@[m];
                            assert(pre.order[j] == pre.order[k as int] && j != k);
                        }
                    }
                    if p2[p as int] is Some {
                        assert(pre.parent[p as int] is Some);
                        let j = choose|j: int| 0 <= j < k && pre.order[j] == p;
                        assert(!flags@[p as int]);
                        assert(newo@.contains(p));
                    }
                }
                let ghost before = newo@;
                newo.push(x);
                proof {
                    assert(newo@ =~= before.push(x));
                    assert(topo_sorted(p2, newo@)) by {
                        assert(newo@.no_duplicates());
                        assert forall|kk: int| 0 <= kk < newo@.len() implies (#[trigger] newo@[kk])
                            < p2.len() && p2[newo@[kk] as int] is Some by {
                            if kk < before.len() {
                                assert(newo@[kk] == before[kk]);
                            }
                        }
                        assert forall|kk: int| 0 <= kk < newo@.len() implies {
                            let pp = p2[#[trigger] newo@[kk] as int].unwrap();
                            p2[pp as int] is Some ==> exists|j: int| 0 <= j < kk && newo@[j] == pp
                        } by {
                            if kk < before.len() {
                                assert(newo@[kk] == before[kk]);
                                let pp = p2[newo@[kk] as int].unwrap();
                                if p2[pp as int] is Some {
                                    let j = choose|j: int| 0 <= j < kk && before[j] == pp;
                                    assert(newo@[j] == pp);
                                }
                            } else {
                                let pp = p2[x as int].unwrap();
                                if p2[pp as int] is Some {
                                    let m = choose|m: int|
                                        0 <= m < before.len() && before[m] == pp;
                                    assert(newo@[m] == pp);
                                }
                            }
                        }
                    }
                    assert forall|j: int| 0 <= j < k + 1 && pre.order[j] != c
                        && !flags@[pre.order[j] as int] implies newo@.contains(
                        #[trigger] pre.order[j]) by {
                        if j < k {
                            let m = choose|m: int| 0 <= m < before.len() && before[m] == pre.order[j];
                            assert(newo@[m] == pre.order[j]);
                        } else {
                            assert(newo@[newo@.len() - 1] == x);
                        }
                    }
                }
            } else {
                proof {
                    assert forall|j: int| 0 <= j < k + 1 && pre.order[j] != c
                        && !flags@[pre.order[j] as int] implies newo@.contains(
                        #[trigger] pre.order[j]) by {
                        if j == k {
                            assert(pre.order[k as int] == x);
                            assert(x == c || flags@[x as int]);
                        }
                    }
                }
            }
            k += 1;
        }
        proof {
            assert(!newo@.contains(c));
            assert(p2[c as int] == Some(t));
            if p2[t as int] is Some {
                assert(t != c);
                assert(pre.parent[t as int] is Some);
                assert(pre.order.contains((t as int) as u32));
                let j = choose|j: int| 0 <= j < pre.order.len() && pre.order[j] == t;
                assert(!flags@[t as int]);
                assert(newo@.contains(pre.order[j]));
            }
        }
        let ghost before_c = newo@;
        newo.push(c);
        proof {
            assert(newo@ =~= before_c.push(c));
            assert(topo_sorted(p2, newo@)) by {
                assert(newo@.no_duplicates());
                assert forall|kk: int| 0 <= kk < newo@.len() implies (#[trigger] newo@[kk])
                    < p2.len() && p2[newo@[kk] as int] is Some by {
                    if kk < before_c.len() {
                        assert(newo@[kk] == before_c[kk]);
                    }
                }
                assert forall|kk: int| 0 <= kk < newo@.len() implies {
                    let pp = p2[#[trigger] newo@[kk] as int].unwrap();
                    p2[pp as int] is Some ==> exists|j: int| 0 <= j < kk && newo@[j] == pp
                } by {
                    if kk < before_c.len() {
                        assert(newo@[kk] == before_c[kk]);
                        let pp = p2[newo@[kk] as int].unwrap();
                        if p2[pp as int] is Some {
                            let j = choose|j: int| 0 <= j < kk && before_c[j] == pp;
                            assert(newo@[j] == pp);
                        }
                    } else {
                        assert(newo@[kk] == c);
                        if p2[t as int] is Some {
                            let m = choose|m: int|
                                0 <= m < before_c.len() && before_c[m] == t;
                            assert(newo@[m] == t);
                        }
                    }
                }
            }
        }
        let ghost cpos = newo@.len() - 1;
        proof {
            assert forall|j: int| 0 <= j < olen && pre.order[j] != c && !flags@[pre.order[j] as int]
                implies newo@.contains(#[trigger] pre.order[j]) by {
                assert(before_c.contains(pre.order[j]));
                let m = choose|m: int| 0 <= m < before_c.len() && before_c[m] == pre.order[j];
                assert(newo@[m] == pre.order[j]);
            }
            assert forall|m: int| 0 <= m < newo@.len() implies (#[trigger] newo@[m]) == c || (
                !flags@[newo@[m] as int] && exists|j: int| 0 <= j < olen && pre.order[j] == newo@[m])
                || (flags@[newo@[m] as int] && exists|j: int| 0 <= j < 0 && pre.order[j]
                == newo@[m]) by {
                if m < before_c.len() {
                    assert(newo@[m] == before_c[m]);
                }
            }
        }
        k = 0;
        #[verifier::loop_isolation(false)]
        while k < olen
            invariant
                k <= olen,
                topo_sorted(p2, newo@),
                newo@.len() > cpos >= 0,
                newo@[cpos] == c,
                forall|m: int|
                    0 <= m < newo@.len() ==> (#[trigger] newo@[m]) == c || (!flags@[newo@[m] as int]
                        && exists|j: int| 0 <= j < olen && pre.order[j] == newo@[m]) || (
                    flags@[newo@[m] as int] && exists|j: int| 0 <= j < k && pre.order[j] == newo@[m]),
                forall|j: int|
                    0 <= j < olen && pre.order[j] != c && !flags@[pre.order[j] as int]
                        ==> newo@.contains(#[trigger] pre.order[j]),
                forall|j: int|
                    0 <= j < k && pre.order[j] != c && flags@[pre.order[j] as int]
                        ==> newo@.contains(#[trigger] pre.order[j]),
            decreases olen - k,
        {
            let x = self.order[k];
            proof {
                assert(pre.order[k as int] == x);
                assert(x < pre.parent.len() && pre.parent[x as int] is Some);
            }
            if x != c && flags[x as usize] {
                proof {
                    let p = pre.parent[x as int].unwrap();
                    assert(0 <= p < self.n());
                    assert(full.contains(x));
                    assert(p == c || full.contains(p));
                    assert(p2[x as int] == pre.parent[x as int]);
                    assert(!newo@.contains(x)) by {
                        if newo@.contains(x) {
                            let m = choose|m: int| 0 <= m < newo@.len() && newo@[m] == x;
                            if newo@[m] == c {
                            } else if !flags@[newo@[m] as int] {
                            } else {
                                let j = choose|j: int| 0 <= j < k && pre.order[j] == newo@[m];
                                assert(pre.order[j] == pre.order[k as int] && j != k);
                            }
                        }
                    }
                    if p2[p as int] is Some {
                        if p == c {
                            assert(newo@.contains(c));
                        } else {
                            assert(full.contains(p));
                            assert(pre.parent[p as int] is Some);
                            let j = choose|j: int| 0 <= j < k && pre.order[j] == p;
                            assert(flags@[p as int]);
                            assert(newo@.contains(p));
                        }
                    }
                }
                let ghost before = newo@;
                newo.push(x);
                proof {
                    assert(newo@ =~= before.push(x));
                    assert(topo_sorted(p2, newo@)) by {
                        assert(newo@.no_duplicates());
                        assert forall|kk: int| 0 <= kk < newo@.len() implies (#[trigger] newo@[kk])
                            < p2.len() && p2[newo@[kk] as int] is Some by {
                            if kk < before.len() {
                                assert(newo@[kk] == before[kk]);
                            }
                        }
                        assert forall|kk: int| 0 <= kk < newo@.len() implies {
                            let pp = p2[#[trigger] newo@[kk] as int].unwrap();
                            p2[pp as int] is Some ==> exists|j: int| 0 <= j < kk && newo@[j] == pp
                        } by {
                            if kk < before.len() {
                                assert(newo@[kk] == before[kk]);
                                let pp = p2[newo@[kk] as int].unwrap();
                                if p2[pp as int] is Some {
                                    let j = choose|j: int| 0 <= j < kk && before[j] == pp;
                                    assert(newo@[j] == pp);
                                }
                            } else {
                                let pp = p2[x as int].unwrap();
                                if p2[pp as int] is Some {
                                    let m = choose|m: int|
                                        0 <= m < before.len() && before[m] == pp;
                                    assert(newo@[m] == pp);
                                }
                            }
                        }
                    }
                    assert forall|j: int| 0 <= j < olen && pre.order[j] != c
                        && !flags@[pre.order[j] as int] implies newo@.contains(
                        #[trigger] pre.order[j]) by {
                        let m = choose|m: int| 0 <= m < before.len() && before[m] == pre.order[j];
                        assert(newo@[m] == pre.order[j]);
                    }
                    assert forall|j: int| 0 <= j < k + 1 && pre.order[j] != c
                        && flags@[pre.order[j] as int] implies newo@.contains(
                        #[trigger] pre.order[j]) by {
                        if j < k {
                            let m = choose|m: int| 0 <= m < before.len() && before[m] == pre.order[j];
                            assert(newo@[m] == pre.order[j]);
                        } else {
                            assert(newo@[newo@.len() - 1] == x);
                        }
                    }
                }
            } else {
                proof {
                    assert forall|j: int| 0 <= j < k + 1 && pre.order[j] != c
                        && flags@[pre.order[j] as int] implies newo@.contains(
                        #[trigger] pre.order[j]) by {
                        if j == k {
                            assert(pre.order[k as int] == x);
                        }
                    }
                }
            }
            k += 1;
        }
        self.parent[c as usize] = Some(t);
        let ghost dropped = self.order@;
        self.order = newo;
        proof {
            assert(self@.parent =~= p2);
            assert(topo_complete(p2, self@.order)) by {
                assert forall|i: int| 0 <= i < p2.len() && p2[i] is Some implies
                    #[trigger] self@.order.contains(i as u32) by {
                    if i == c as int {
                        assert(self@.order[cpos] == c);
                    } else {
                        assert(pre.parent[i] is Some);
                        assert(pre.order.contains((i as int) as u32));
                        let j = choose|j: int| 0 <= j < pre.order.len() && pre.order[j] == i as u32;
                        assert(pre.order[j] != c);
                        assert(self@.order.contains(pre.order[j]));
                    }
                }
            }
            assert(topo_ok(self@.parent, self@.order));
            assert forall|j: int| 0 <= j < self.n() && self@.parent[j] is Some implies {
                let p = (#[trigger] self@.parent[j]).unwrap() as int;
                0 <= p < self.n() && p != j && self@.alive[p] && self@.alive[j]
            } by {
                if j != c as int {
                    assert(old(self)@.parent[j] is Some);
                }
            }
            assert forall|j: int| 0 <= j < self.n() && !self@.alive[j] implies #[trigger] self.slot_clean(
                j,
            ) by {
                assert(old(self).slot_clean(j));
                assert(j != c as int);
            }
            assert forall|j: int| 0 <= j < self.n() implies #[trigger] self.slot_bounded(j) by {
                assert(old(self).slot_bounded(j));
            }
        }
        Ok(())
    }


    /// Removes node `i` from the scene: orphans its children, detaches every
    /// attribute, and frees the slot under a new generation so existing
    /// handles to it go stale.
    #[verifier::rlimit(40)]
    pub fn delete_node(&mut self, i: u32)
        requires
            old(self).wf(),
            i < old(self).n(),
            old(self)@.alive[i as int],
        ensures
            final(self).wf(),
            final(self).n() == old(self).n(),
            final(self)@.alive =~= old(self)@.alive.update(i as int, false),
            final(self)@.generation[i as int] == ((old(self)@.generation[i as int]
                + 1) % 0x1_0000_0000) as u32,
            final(self).slot_clean(i as int),
            forall|j: int|
                0 <= j < old(self).n() && j != i as int ==> final(self)@.parent[j] == (if old(self)@.parent[j] == Some(i) {
                    None
                } else {
                    old(self)@.parent[j]
                }),
            final(self)@.parent[i as int] is None,
            forall|j: int|
                0 <= j < old(self).n() && j != i as int ==> final(self)@.generation[j] == old(self)@.generation[j] && final(self)@.position[j] == old(self)@.position[j] && final(self)@.text_block[j] == old(self)@.text_block[j] && final(self)@.visible[j] == old(self)@.visible[j] && final(self)@.zlevel[j] == old(self)@.zlevel[j] && final(self)@.stacking_context[j] == old(self)@.stacking_context[j] && final(self)@.stacking_rule[j] == old(self)@.stacking_rule[j] && final(self)@.centered[j]
                    == old(self)@.centered[j] && final(self)@.border[j] == old(self)@.border[j]
                    && final(self)@.visible_if_child[j] == old(self)@.visible_if_child[j] && final(self)@.global_position[j] == old(self)@.global_position[j],
    {
        let n = self.alive.len();
        let mut j: usize = 0;
        #[verifier::loop_isolation(false)]
        while j < n
            invariant
                j <= n,
                self.wf(),
                self.n() == old(self).n(),
                self@.alive == old(self)@.alive,
                self@.generation == old(self)@.generation,
                self@.position == old(self)@.position,
                self@.text_block == old(self)@.text_block,
                self@.visible == old(self)@.visible,
                self@.zlevel == old(self)@.zlevel,
                self@.stacking_context == old(self)@.stacking_context,
                self@.stacking_rule == old(self)@.stacking_rule,
                self@.centered == old(self)@.centered,
                self@.border == old(self)@.border,
                self@.visible_if_child == old(self)@.visible_if_child,
                self@.global_position == old(self)@.global_position,
                forall|m: int|
                    0 <= m < n ==> self@.parent[m] == (if m < j && old(self)@.parent[m] == Some(i) {
                        None
                    } else {
                        old(self)@.parent[m]
                    }),
            decreases n - j,
        {
            let is_child = match self.parent[j] {
                Some(p) => p == i,
                None => false,
            };
            if is_child {
                proof {
                    assert(self@.alive[j as int]);
                }
                self.clear_parent(j as u32);
            }
            j += 1;
        }
        self.clear_parent(i);
        self.remove_position(i);
        self.remove_text_block(i);
        self.remove_visible(i);
        self.remove_zlevel(i);
        self.remove_global_position(i);
        let ghost mid = self@;
        proof {
            assert(self.wf());
            assert forall|m: int| 0 <= m < mid.alive.len() && !mid.alive[m] implies
                #[trigger] view_slot_clean(mid, m) by {
                assert(self.slot_clean(m));
            }
            assert forall|m: int| 0 <= m < mid.alive.len() implies #[trigger] view_slot_bounded(
                mid, m) by {
                assert(self.slot_bounded(m));
            }
        }
        self.stacking_context[i as usize] = None;
        self.stacking_rule[i as usize] = None;
        self.centered[i as usize] = None;
        self.border[i as usize] = None;
        self.visible_if_child[i as usize] = false;
        let g = self.generation[i as usize];
        self.generation[i as usize] = g.wrapping_add(1);
        self.alive[i as usize] = false;
        proof {
            assert forall|m: int| 0 <= m < self.n() && self@.parent[m] is Some implies {
                let p = (#[trigger] self@.parent[m]).unwrap() as int;
                0 <= p < self.n() && p != m && self@.alive[p] && self@.alive[m]
            } by {
                assert(mid.parent[m] is Some);
                assert(mid.parent[m] != Some(i));
            }
            assert forall|m: int| 0 <= m < self.n() && !self@.alive[m] implies #[trigger] self.slot_clean(m) by {
                if m != i as int {
                    assert(!mid.alive[m]);
                    assert(view_slot_clean(mid, m));
                }
            }
            assert forall|m: int| 0 <= m < self.n() implies #[trigger] self.slot_bounded(m) by {
                if m != i as int {
                    assert(view_slot_bounded(mid, m));
                    assert(mid.position[m] == self@.position[m] && mid.text_block[m]
                        == self@.text_block[m] && mid.global_position[m] == self@.global_position[m]);
                }
            }
            assert(topo_ok(self@.parent, self@.order)) by {
                assert(self@.parent == mid.parent && self@.order == mid.order);
            }
            assert(self@.alive =~= old(self)@.alive.update(i as int, false));
        }
    }

    /// The direct children of `p`, in ascending index order.
    pub fn children_vec(&self, p: u32) -> (r: Vec<u32>)
        requires
            self.wf(),
        ensures
            r@ == children_of(self@.parent, p),
            forall|k: int| 0 <= k < r@.len() ==> (#[trigger] r@[k]) < self.n(),
    {
        let n = self.alive.len();
        let mut r: Vec<u32> = Vec::new();
        let mut j: usize = 0;
        #[verifier::loop_isolation(false)]
        while j < n
            invariant
                j <= n,
                r@ == children_upto(self@.parent, p, j as int),
                forall|k: int| 0 <= k < r@.len() ==> (#[trigger] r@[k]) < self.n(),
            decreases n - j,
        {
            let is_child = match self.parent[j] {
                Some(q) => q == p,
                None => false,
            };
            if is_child {
                r.push(j as u32);
            }
            j += 1;
        }
        r
    }


    /// Rewrites only the declared width and height of node `i`'s text block,
    /// keeping its rows; a node without a block gets an empty one of that
    /// size. Returns whether a block was already present.
    pub fn set_text_block_size(&mut self, i: u32, w: i64, h: i64) -> (was: bool)
        requires
            old(self).wf(),
            i < old(self).n(),
            old(self)@.alive[i as int],
            -MAX_EXTENT <= w <= MAX_EXTENT,
            -MAX_EXTENT <= h <= MAX_EXTENT,
        ensures
            final(self).wf(),
            was == (old(self)@.text_block[i as int] is Some),
            final(self)@ == (SceneView {
                text_block: old(self)@.text_block.update(
                    i as int,
                    Some(resized_tb(old(self)@.text_block[i as int], w as int, h as int)),
                ),
                ..old(self)@
            }),
    {
        let taken = self.text_block[i as usize].take();
        let was = taken.is_some();
        let ghost taken0 = taken;
        let fresh = match taken {
            Some(tb) => TextBlock { width: w, height: h, ..tb },
            None => TextBlock { rows: Vec::new(), width: w, height: h },
        };
        self.text_block[i as usize] = Some(fresh);
        proof {
            assert(taken0 == old(self).text_block@[i as int]);
            let ghost want = resized_tb(old(self)@.text_block[i as int], w as int, h as int);
            assert(fresh@.rows =~= want.rows);
            assert(fresh@ == want);
            assert(self.text_block@ =~= old(self).text_block@.update(i as int, Some(fresh)));
            assert forall|j: int| 0 <= j < self.n() implies self@.text_block[j] == old(self)@.text_block.update(
                i as int,
                Some(resized_tb(old(self)@.text_block[i as int], w as int, h as int)),
            )[j] by {
                if j != i as int {
                    assert(self.text_block@[j] == old(self).text_block@[j]);
                }
            }
            assert(self@.text_block =~= old(self)@.text_block.update(
                i as int,
                Some(resized_tb(old(self)@.text_block[i as int], w as int, h as int)),
            ));
            assert forall|j: int| 0 <= j < self.n() && !self@.alive[j] implies #[trigger] self.slot_clean(j) by {
                assert(old(self).slot_clean(j));
            }
            assert forall|j: int| 0 <= j < self.n() implies #[trigger] self.slot_bounded(j) by {
                assert(old(self).slot_bounded(j));
            }
        }
        was
    }


    pub fn get_stacking_context(&self, i: u32) -> (r: Option<StackingContext>)
        requires
            self.wf(),
            i < self.n(),
        ensures
            r == self@.stacking_context[i as int],
    {
        self.stacking_context[i as usize]
    }

    pub fn get_stacking_rule(&self, i: u32) -> (r: Option<StackingRule>)
        requires
            self.wf(),
            i < self.n(),
        ensures
            r == self@.stacking_rule[i as int],
    {
        self.stacking_rule[i as usize]
    }

    pub fn get_centered(&self, i: u32) -> (r: Option<Centered>)
        requires
            self.wf(),
            i < self.n(),
        ensures
            r == self@.centered[i as int],
    {
        self.centered[i as usize]
    }

    pub fn get_border(&self, i: u32) -> (r: Option<Border>)
        requires
            self.wf(),
            i < self.n(),
        ensures
            r == self@.border[i as int],
    {
        self.border[i as usize]
    }

    pub fn get_visible_if_child(&self, i: u32) -> (r: bool)
        requires
            self.wf(),
            i < self.n(),
        ensures
            r == self@.visible_if_child[i as int],
    {
        self.visible_if_child[i as usize]
    }

    /// The node at position `k` of the maintained topological order.
    pub fn order_at(&self, k: usize) -> (r: u32)
        requires
            self.wf(),
            k < self@.order.len(),
        ensures
            r == self@.order[k as int],
            r < self.n(),
            self@.parent[r as int] is Some,
    {
        self.order[k]
    }

    pub fn order_len(&self) -> (r: usize)
        ensures
            r == self@.order.len(),
    {
        self.order.len()
    }


    /// Replaces the rows of node `i`'s text block, keeping its declared
    /// size.
    pub fn set_text_block_rows(&mut self, i: u32, rows: Vec<Vec<char>>) -> (was: bool)
        requires
            old(self).wf(),
            i < old(self).n(),
            old(self)@.alive[i as int],
            old(self)@.text_block[i as int] is Some,
        ensures
            final(self).wf(),
            was,
            final(self)@ == (SceneView {
                text_block: old(self)@.text_block.update(
                    i as int,
                    Some(
                        rerowed_tb(
                            old(self)@.text_block[i as int],
                            rows@.map_values(|r: Vec<char>| r@),
                        ),
                    ),
                ),
                ..old(self)@
            }),
    {
        let taken = self.text_block[i as usize].take();
        let was = taken.is_some();
        let ghost taken0 = taken;
        let fresh = match taken {
            Some(tb) => TextBlock { rows, ..tb },
            None => TextBlock { rows, width: 0, height: 0 },
        };
        self.text_block[i as usize] = Some(fresh);
        proof {
            assert(taken0 == old(self).text_block@[i as int]);
            let ghost want = rerowed_tb(
                old(self)@.text_block[i as int],
                rows@.map_values(|r: Vec<char>| r@),
            );
            assert(fresh@.rows =~= want.rows);
            assert(fresh@ == want);
            assert(self.text_block@ =~= old(self).text_block@.update(i as int, Some(fresh)));
            assert forall|j: int| 0 <= j < self.n() implies self@.text_block[j] == old(self)@.text_block.update(i as int, Some(want))[j] by {
                if j != i as int {
                    assert(self.text_block@[j] == old(self).text_block@[j]);
                }
            }
            assert(self@.text_block =~= old(self)@.text_block.update(i as int, Some(want)));
            assert forall|j: int| 0 <= j < self.n() && !self@.alive[j] implies #[trigger] self.slot_clean(j) by {
                assert(old(self).slot_clean(j));
            }
            assert forall|j: int| 0 <= j < self.n() implies #[trigger] self.slot_bounded(j) by {
                assert(old(self).slot_bounded(j));
            }
        }
        was
    }

    pub fn get_position(&self, i: u32) -> (r: Option<Position>)
        requires
            self.wf(),
            i < self.n(),
        ensures
            r == self@.position[i as int],
    {
        self.position[i as usize]
    }

    pub fn get_visible(&self, i: u32) -> (r: Option<bool>)
        requires
            self.wf(),
            i < self.n(),
        ensures
            r == self@.visible[i as int],
    {
        self.visible[i as usize]
    }

    pub fn get_zlevel(&self, i: u32) -> (r: Option<i64>)
        requires
            self.wf(),
            i < self.n(),
        ensures
            r == self@.zlevel[i as int],
    {
        self.zlevel[i as usize]
    }

    pub fn get_global_position(&self, i: u32) -> (r: Option<Position>)
        requires
            self.wf(),
            i < self.n(),
        ensures
            r == self@.global_position[i as int],
    {
        self.global_position[i as usize]
    }

    pub fn get_parent(&self, i: u32) -> (r: Option<u32>)
        requires
            self.wf(),
            i < self.n(),
        ensures
            r == self@.parent[i as int],
    {
        self.parent[i as usize]
    }

    /// Borrows the text block of node `i`, if it has one.
    pub fn get_text_block(&self, i: u32) -> (r: Option<&TextBlock>)
        requires
            self.wf(),
            i < self.n(),
        ensures
            match r {
                Some(t) => self@.text_block[i as int] == Some(t@),
                None => self@.text_block[i as int] is None,
            },
    {
        self.text_block[i as usize].as_ref()
    }

}

} // verus!
