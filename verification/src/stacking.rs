//! The one-axis flex distribution at the heart of the layout solver: a
//! container's extent is split across its children in proportion to their
//! flex weights, children whose share violates a declared min or max are
//! frozen at that bound and the remainder is redistributed, and the last
//! unfrozen child absorbs the rounding remainder so the shares sum exactly
//! to the container's extent.
use vstd::prelude::*;
use vstd::arithmetic::div_mod::{lemma_fundamental_div_mod, lemma_fundamental_div_mod_converse};
use crate::components::{
    Position, StackDirection, StackingRule, MAX_EXTENT, MAX_FLEX, MAX_NODES, MAX_RULE_BOUND,
};
use crate::dirty::{bitset_add, bitset_contains, bitset_is_empty, bitset_new, bits_of};
use crate::events::{TuiError, TuiEvent};
use crate::scene::{lemma_subtree_rec, resized_tb, subtree_of, SceneView, TextBlockV};
use crate::tui::Tui;

verus! {

/// The constraints of one child along the stacking axis.
#[derive(Debug, Clone, Copy, PartialEq)]
pub struct AxisRule {
    pub flex: u32,
    pub min: Option<i64>,
    pub max: Option<i64>,
}

/// Magnitude bound that every extent and offset the solver computes stays
/// under, given inputs within `MAX_EXTENT`, `MAX_RULE_BOUND` and `MAX_FLEX`.
pub const MAX_SOLVED: i64 = 0x6000_0000_0000_0000;

/// The evolving state of one distribution: per-child sizes and offsets, the
/// freeze flags, the extent already claimed by frozen children, the running
/// offset of the current pass, and whether the current pass froze anyone.
pub ghost struct FlexPass {
    pub sizes: Seq<int>,
    pub offsets: Seq<int>,
    pub frozen: Seq<bool>,
    pub used: int,
    pub pos: int,
    pub changed: bool,
}

/// A rule set the solver accepts: bounded flex weights and bounds.
pub open spec fn rules_ok(rules: Seq<AxisRule>) -> bool {
    &&& rules.len() <= MAX_NODES
    &&& forall|i: int|
        0 <= i < rules.len() ==> (#[trigger] rules[i]).flex <= MAX_FLEX && (rules[i].min matches
        Some(m) ==> -MAX_RULE_BOUND <= m <= MAX_RULE_BOUND) && (rules[i].max matches Some(m)
            ==> -MAX_RULE_BOUND <= m <= MAX_RULE_BOUND)
}

/// Total flex weight of the unfrozen children among the first `i`.
pub open spec fn flex_sum(rules: Seq<AxisRule>, frozen: Seq<bool>, i: int) -> int
    decreases i,
{
    if i <= 0 {
        0
    } else {
        flex_sum(rules, frozen, i - 1) + if frozen[i - 1] {
            0int
        } else {
            rules[i - 1].flex as int
        }
    }
}

/// How many of the first `i` children are frozen.
pub open spec fn num_frozen(frozen: Seq<bool>, i: int) -> int
    decreases i,
{
    if i <= 0 {
        0
    } else {
        num_frozen(frozen, i - 1) + if frozen[i - 1] {
            1int
        } else {
            0int
        }
    }
}

/// One child's share this pass: its flex weight times the per-flex cell
/// count.
pub open spec fn share_of(rules: Seq<AxisRule>, of: int, i: int) -> int {
    rules[i].flex as int * of
}

/// The last unfrozen child in layout order among the first `cc`, or -1 when
/// every child is frozen: the child that absorbs the rounding remainder.
pub open spec fn last_unfrozen(frozen: Seq<bool>, cc: int) -> int
    decreases cc,
{
    if cc <= 0 {
        -1
    } else if !frozen[cc - 1] {
        cc - 1
    } else {
        last_unfrozen(frozen, cc - 1)
    }
}

/// Sum of the sizes from `from` (inclusive) to `cc` (exclusive).
pub open spec fn suffix_sum(sizes: Seq<int>, from: int, cc: int) -> int
    decreases cc - from,
{
    if from >= cc {
        0
    } else {
        sizes[from] + suffix_sum(sizes, from + 1, cc)
    }
}

/// Processing of child `i` within a pass: a frozen child keeps its bound and
/// only advances the running offset; an unfrozen child is frozen at a min or
/// max bound its share violates, and otherwise takes its share, except that
/// the last unfrozen child in layout order (`labs`, fixed at the start of
/// the pass) absorbs the rounding remainder, so the pass lands exactly on
/// the container's extent whenever any child is unfrozen.
pub open spec fn pass_child(
    total: int,
    rules: Seq<AxisRule>,
    of: int,
    labs: int,
    st: FlexPass,
    i: int,
) -> FlexPass {
    let cc = rules.len() as int;
    if st.frozen[i] {
        FlexPass { offsets: st.offsets.update(i, st.pos), pos: st.pos + st.sizes[i], ..st }
    } else {
        let w = share_of(rules, of, i);
        let hit_min = rules[i].min matches Some(m) && w < m;
        let hit_max = rules[i].max matches Some(m) && w > m;
        let bound_sz = if hit_max {
            rules[i].max.unwrap()
        } else {
            rules[i].min.unwrap()
        };
        let froze = hit_min || hit_max;
        let sz = if froze {
            bound_sz as int
        } else if i == labs {
            total - st.pos - suffix_sum(st.sizes, i + 1, cc)
        } else {
            w
        };
        let used2 = st.used + (if hit_min {
            rules[i].min.unwrap() as int
        } else {
            0int
        }) + (if hit_max {
            rules[i].max.unwrap() as int
        } else {
            0int
        });
        FlexPass {
            sizes: st.sizes.update(i, sz),
            offsets: st.offsets.update(i, st.pos),
            frozen: st.frozen.update(i, froze),
            used: used2,
            pos: st.pos + sz,
            changed: st.changed || froze,
        }
    }
}

/// The first `i` child steps of a pass, in child order.
pub open spec fn pass_upto(
    total: int,
    rules: Seq<AxisRule>,
    of: int,
    labs: int,
    st: FlexPass,
    i: int,
) -> FlexPass
    decreases i,
{
    if i <= 0 {
        st
    } else {
        pass_child(total, rules, of, labs, pass_upto(total, rules, of, labs, st, i - 1), i - 1)
    }
}

/// One full pass: the per-flex cell count is fixed from the unfrozen flex
/// total and the extent not yet claimed by frozen children, then every child
/// is processed in order.
pub open spec fn do_pass(total: int, rules: Seq<AxisRule>, st: FlexPass) -> FlexPass {
    let tf = flex_sum(rules, st.frozen, rules.len() as int);
    let of = if tf == 0 {
        0int
    } else {
        (total - st.used) / tf
    };
    let labs = last_unfrozen(st.frozen, rules.len() as int);
    pass_upto(total, rules, of, labs, FlexPass { pos: 0, changed: false, ..st }, rules.len() as int)
}

/// Passes are repeated until one freezes nobody; `fuel` bounds the
/// recursion, and suffices whenever it is at least the number of children
/// still unfrozen, since every repeated pass freezes at least one more.
pub open spec fn solve_rec(total: int, rules: Seq<AxisRule>, st: FlexPass, fuel: nat) -> FlexPass
    decreases fuel,
{
    let p = do_pass(total, rules, st);
    if !p.changed || fuel == 0 {
        p
    } else {
        solve_rec(total, rules, p, (fuel - 1) as nat)
    }
}

/// The initial, nothing-assigned state.
pub open spec fn init_pass(cc: int) -> FlexPass {
    FlexPass {
        sizes: Seq::new(cc as nat, |i: int| 0),
        offsets: Seq::new(cc as nat, |i: int| 0),
        frozen: Seq::new(cc as nat, |i: int| false),
        used: 0,
        pos: 0,
        changed: false,
    }
}

/// The distribution of `total` over `rules`: what the solver computes.
pub open spec fn solve_stack_spec(total: int, rules: Seq<AxisRule>) -> FlexPass {
    solve_rec(total, rules, init_pass(rules.len() as int), rules.len())
}

/// Sum of the first `i` sizes.
pub open spec fn sizes_sum(sizes: Seq<int>, i: int) -> int
    decreases i,
{
    if i <= 0 {
        0
    } else {
        sizes_sum(sizes, i - 1) + sizes[i - 1]
    }
}


proof fn lemma_last_unfrozen_props(frozen: Seq<bool>, cc: int)
    requires
        0 <= cc <= frozen.len(),
    ensures
        -1 <= last_unfrozen(frozen, cc) < cc,
        last_unfrozen(frozen, cc) >= 0 ==> !frozen[last_unfrozen(frozen, cc)],
        forall|j: int| last_unfrozen(frozen, cc) < j < cc ==> frozen[j],
        (exists|j: int| 0 <= j < cc && !frozen[j]) ==> last_unfrozen(frozen, cc) >= 0,
    decreases cc,
{
    if cc > 0 {
        lemma_last_unfrozen_props(frozen, cc - 1);
        if frozen[cc - 1] {
            if exists|j: int| 0 <= j < cc && !frozen[j] {
                let j = choose|j: int| 0 <= j < cc && !frozen[j];
                assert(0 <= j < cc - 1 && !frozen[j]);
            }
        }
    }
}

proof fn lemma_changed_mono(total: int, rules: Seq<AxisRule>, of: int, labs: int, st0: FlexPass, a: int, b: int)
    requires
        0 <= a <= b,
        pass_upto(total, rules, of, labs, st0, a).changed,
    ensures
        pass_upto(total, rules, of, labs, st0, b).changed,
    decreases b - a,
{
    if b > a {
        lemma_changed_mono(total, rules, of, labs, st0, a, b - 1);
    }
}

proof fn lemma_prefix_stable(total: int, rules: Seq<AxisRule>, of: int, labs: int, st0: FlexPass, a: int, b: int)
    requires
        0 <= a <= b <= rules.len(),
        st0.sizes.len() == rules.len(),
        st0.offsets.len() == rules.len(),
        st0.frozen.len() == rules.len(),
    ensures
        forall|j: int|
            0 <= j < a ==> pass_upto(total, rules, of, labs, st0, b).sizes[j] == pass_upto(
                total,
                rules,
                of,
                labs,
                st0,
                a,
            ).sizes[j],
    decreases b - a,
{
    if b > a {
        lemma_prefix_stable(total, rules, of, labs, st0, a, b - 1);
        lemma_pass_props(total, rules, of, labs, st0, b - 1);
        let q = pass_upto(total, rules, of, labs, st0, b - 1);
        let p = pass_child(total, rules, of, labs, q, b - 1);
        assert(p == pass_upto(total, rules, of, labs, st0, b));
        assert forall|j: int| 0 <= j < a implies p.sizes[j] == pass_upto(
            total,
            rules,
            of,
            labs,
            st0,
            a,
        ).sizes[j] by {
            if q.frozen[b - 1] {
                assert(p.sizes == q.sizes);
            } else {
                assert(p.sizes == q.sizes.update(b - 1, p.sizes[b - 1]));
                assert(p.sizes[j] == q.sizes[j]);
            }
        }
    }
}

proof fn lemma_sum_split(sizes: Seq<int>, k: int, cc: int)
    requires
        0 <= k <= cc,
    ensures
        sizes_sum(sizes, cc) == sizes_sum(sizes, k) + suffix_sum(sizes, k, cc),
    decreases cc - k,
{
    if k < cc {
        lemma_sum_split(sizes, k + 1, cc);
        assert(sizes_sum(sizes, k + 1) == sizes_sum(sizes, k) + sizes[k]);
    }
}

proof fn lemma_suffix_sum_same(a: Seq<int>, b: Seq<int>, from: int, cc: int)
    requires
        forall|j: int| from <= j < cc ==> a[j] == b[j],
    ensures
        suffix_sum(a, from, cc) == suffix_sum(b, from, cc),
    decreases cc - from,
{
    if from < cc {
        lemma_suffix_sum_same(a, b, from + 1, cc);
    }
}

proof fn lemma_suffix_snoc(sizes: Seq<int>, a: int, j: int)
    requires
        a <= j,
    ensures
        suffix_sum(sizes, a, j + 1) == suffix_sum(sizes, a, j) + sizes[j],
    decreases j - a,
{
    if a < j {
        lemma_suffix_snoc(sizes, a + 1, j);
    } else {
        assert(suffix_sum(sizes, a, j + 1) == sizes[a] + suffix_sum(sizes, a + 1, j + 1));
    }
}

proof fn lemma_flex_sum_bounds(rules: Seq<AxisRule>, frozen: Seq<bool>, i: int)
    requires
        rules_ok(rules),
        0 <= i <= rules.len(),
    ensures
        0 <= flex_sum(rules, frozen, i) <= i * MAX_FLEX,
    decreases i,
{
    if i > 0 {
        lemma_flex_sum_bounds(rules, frozen, i - 1);
    }
}

proof fn lemma_flex_member_le(rules: Seq<AxisRule>, frozen: Seq<bool>, i: int, cc: int)
    requires
        rules_ok(rules),
        0 <= i < cc <= rules.len(),
        !frozen[i],
    ensures
        rules[i].flex as int <= flex_sum(rules, frozen, cc),
    decreases cc,
{
    lemma_flex_sum_bounds(rules, frozen, i);
    if i == cc - 1 {
    } else {
        lemma_flex_member_le(rules, frozen, i, cc - 1);
    }
}

/// Floor division by a positive divisor, as the specification's `/` is.
pub(crate) fn floor_div(a: i64, b: i64) -> (q: i64)
    requires
        0 < b,
        -0x4000_0000_0000_0000 < a < 0x4000_0000_0000_0000,
        b < 0x4000_0000_0000_0000,
    ensures
        q == a as int / b as int,
{
    if a >= 0 {
        let qq = ((a as u64) / (b as u64)) as i64;
        proof {
            assert(a as u64 as int == a as int);
            assert(b as u64 as int == b as int);
        }
        qq
    } else {
        let m = -a;
        let qq = (((m + b - 1) as u64) / (b as u64)) as i64;
        proof {
            let mi = m as int;
            let bi = b as int;
            lemma_fundamental_div_mod(mi + bi - 1, bi);
            let q0 = (mi + bi - 1) / bi;
            let r0 = (mi + bi - 1) % bi;
            assert((m + b - 1) as u64 as int == mi + bi - 1);
            assert(qq == q0);
            assert(mi + bi - 1 == bi * q0 + r0);
            // -m = b * (-q0) + (b - 1 - r0), with the remainder in range
            assert(-mi == (-q0) * bi + (bi - 1 - r0)) by (nonlinear_arith)
                requires
                    mi + bi - 1 == bi * q0 + r0,
            ;
            lemma_fundamental_div_mod_converse(-mi, bi, -q0, bi - 1 - r0);
        }
        -qq
    }
}

/// A share never strays farther than the pool plus the flex total: with
/// `0 <= f <= tf`, `f * (a / tf)` lies between `-(|a| + tf)` and `|a| + tf`.
proof fn lemma_share_bound(a: int, f: int, tf: int)
    requires
        0 < tf,
        0 <= f <= tf,
    ensures
        -(if a >= 0 { a } else { -a }) - tf <= f * (a / tf) <= (if a >= 0 { a } else { -a }) + tf,
{
    lemma_fundamental_div_mod(a, tf);
    let q = a / tf;
    let r = a % tf;
    assert(a == tf * q + r);
    assert(0 <= r < tf);
    if q >= 0 {
        assert(f * q <= tf * q) by (nonlinear_arith)
            requires 0 <= f <= tf, q >= 0;
        assert(f * q >= 0) by (nonlinear_arith)
            requires f >= 0, q >= 0;
        assert(tf * q <= a);
    } else {
        assert(f * q >= tf * q) by (nonlinear_arith)
            requires 0 <= f <= tf, q < 0;
        assert(f * q <= 0) by (nonlinear_arith)
            requires f >= 0, q <= 0;
        assert(tf * q >= a - tf);
    }
}


proof fn lemma_num_frozen_bounds(frozen: Seq<bool>, i: int)
    requires
        0 <= i,
    ensures
        0 <= num_frozen(frozen, i) <= i,
    decreases i,
{
    if i > 0 {
        lemma_num_frozen_bounds(frozen, i - 1);
    }
}

proof fn lemma_num_frozen_mono(a: Seq<bool>, b: Seq<bool>, i: int)
    requires
        0 <= i,
        forall|j: int| 0 <= j < i ==> (a[j] ==> b[j]),
    ensures
        num_frozen(a, i) <= num_frozen(b, i),
    decreases i,
{
    if i > 0 {
        lemma_num_frozen_mono(a, b, i - 1);
    }
}

proof fn lemma_num_frozen_strict(a: Seq<bool>, b: Seq<bool>, i: int, w: int)
    requires
        0 <= w < i,
        forall|j: int| 0 <= j < i ==> (a[j] ==> b[j]),
        !a[w],
        b[w],
    ensures
        num_frozen(b, i) >= num_frozen(a, i) + 1,
    decreases i,
{
    if w == i - 1 {
        lemma_num_frozen_mono(a, b, i - 1);
    } else {
        lemma_num_frozen_strict(a, b, i - 1, w);
    }
}

/// What one pass can and cannot do: children at or past the scan point are
/// untouched, freezing is one-way, and a pass that reports a change froze
/// somebody who was not frozen before.
proof fn lemma_pass_props(total: int, rules: Seq<AxisRule>, of: int, labs: int, st0: FlexPass, i: int)
    requires
        0 <= i <= rules.len(),
        st0.sizes.len() == rules.len(),
        st0.offsets.len() == rules.len(),
        st0.frozen.len() == rules.len(),
    ensures
        ({
            let p = pass_upto(total, rules, of, labs, st0, i);
            &&& p.sizes.len() == rules.len()
            &&& p.offsets.len() == rules.len()
            &&& p.frozen.len() == rules.len()
            &&& forall|j: int| 0 <= j < rules.len() ==> (st0.frozen[j] ==> p.frozen[j])
            &&& forall|j: int|
                0 <= j < rules.len() && st0.frozen[j] ==> p.sizes[j] == st0.sizes[j]
            &&& forall|j: int|
                i <= j < rules.len() ==> p.frozen[j] == st0.frozen[j] && p.sizes[j] == st0.sizes[j]
                    && p.offsets[j] == st0.offsets[j]
            &&& (p.changed && !st0.changed ==> exists|j: int|
                0 <= j < i && !st0.frozen[j] && p.frozen[j])
            &&& (!p.changed ==> forall|j: int| 0 <= j < rules.len() ==> p.frozen[j] == st0.frozen[j])
            &&& (st0.changed ==> p.changed)
        }),
    decreases i,
{
    if i > 0 {
        lemma_pass_props(total, rules, of, labs, st0, i - 1);
        let q = pass_upto(total, rules, of, labs, st0, i - 1);
        let p = pass_child(total, rules, of, labs, q, i - 1);
        assert(p == pass_upto(total, rules, of, labs, st0, i));
        if p.changed && !st0.changed {
            if q.changed {
                let j = choose|j: int| 0 <= j < i - 1 && !st0.frozen[j] && q.frozen[j];
                assert(!st0.frozen[j] && p.frozen[j]);
            } else {
                assert(!q.frozen[i - 1] && p.frozen[i - 1]);
                assert(!st0.frozen[i - 1] && p.frozen[i - 1]);
            }
        }
    }
}

/// Any fuel at least the number of unfrozen children reaches the fixed
/// point, so the result does not depend on the exact amount.
proof fn lemma_solve_fuel(total: int, rules: Seq<AxisRule>, st: FlexPass, f1: nat, f2: nat)
    requires
        st.sizes.len() == rules.len(),
        st.offsets.len() == rules.len(),
        st.frozen.len() == rules.len(),
        f1 >= rules.len() - num_frozen(st.frozen, rules.len() as int),
        f2 >= rules.len() - num_frozen(st.frozen, rules.len() as int),
    ensures
        solve_rec(total, rules, st, f1) == solve_rec(total, rules, st, f2),
    decreases f1,
{
    let cc = rules.len() as int;
    let base = FlexPass { pos: 0, changed: false, ..st };
    let tf = flex_sum(rules, st.frozen, cc);
    let of = if tf == 0 { 0int } else { (total - st.used) / tf };
    let labs = last_unfrozen(st.frozen, cc);
    let p = pass_upto(total, rules, of, labs, base, cc);
    assert(p == do_pass(total, rules, st));
    lemma_pass_props(total, rules, of, labs, base, cc);
    if p.changed {
        let w = choose|j: int| 0 <= j < cc && !base.frozen[j] && p.frozen[j];
        lemma_num_frozen_strict(st.frozen, p.frozen, cc, w);
        lemma_num_frozen_bounds(st.frozen, cc);
        lemma_num_frozen_bounds(p.frozen, cc);
        assert(f1 >= 1 && f2 >= 1) by {
            lemma_num_frozen_mono(st.frozen, p.frozen, cc);
            assert(num_frozen(st.frozen, cc) <= cc - 1) by {
                if num_frozen(st.frozen, cc) > cc - 1 {
                    lemma_num_frozen_strict(st.frozen, p.frozen, cc, w);
                }
            }
        }
        lemma_solve_fuel(total, rules, p, (f1 - 1) as nat, (f2 - 1) as nat);
    }
}


/// The integer contents of a vector of machine integers.
pub open spec fn i64s(s: Seq<i64>) -> Seq<int> {
    s.map_values(|v: i64| v as int)
}

proof fn lemma_num_frozen_update(f: Seq<bool>, i: int, cc: int)
    requires
        0 <= i < cc <= f.len(),
        !f[i],
    ensures
        num_frozen(f.update(i, true), cc) == num_frozen(f, cc) + 1,
    decreases cc,
{
    if i == cc - 1 {
        assert(forall|m: int| 0 <= m < cc - 1 ==> f.update(i, true)[m] == f[m]);
        lemma_num_frozen_same(f, f.update(i, true), cc - 1);
    } else {
        lemma_num_frozen_update(f, i, cc - 1);
    }
}

proof fn lemma_num_frozen_none(f: Seq<bool>, i: int)
    requires
        0 <= i,
        forall|m: int| 0 <= m < i ==> !f[m],
    ensures
        num_frozen(f, i) == 0,
    decreases i,
{
    if i > 0 {
        lemma_num_frozen_none(f, i - 1);
    }
}

proof fn lemma_num_frozen_same(a: Seq<bool>, b: Seq<bool>, i: int)
    requires
        0 <= i,
        forall|m: int| 0 <= m < i ==> a[m] == b[m],
    ensures
        num_frozen(a, i) == num_frozen(b, i),
    decreases i,
{
    if i > 0 {
        lemma_num_frozen_same(a, b, i - 1);
    }
}

/// Runs the flex distribution and returns, per child, the resolved extent,
/// the offset along the stacking axis, and whether the child was frozen at
/// one of its bounds. The result is exactly `solve_stack_spec`.
#[verifier::rlimit(100)]
pub fn solve_stack(total: i64, rules: &Vec<AxisRule>) -> (r: (Vec<i64>, Vec<i64>, Vec<bool>))
    requires
        -MAX_EXTENT <= total <= MAX_EXTENT,
        rules_ok(rules@),
    ensures
        ({
            let s = solve_stack_spec(total as int, rules@);
            &&& r.0@.len() == rules@.len()
            &&& r.1@.len() == rules@.len()
            &&& r.2@.len() == rules@.len()
            &&& i64s(r.0@) =~= s.sizes
            &&& i64s(r.1@) =~= s.offsets
            &&& r.2@ =~= s.frozen
            &&& forall|j: int|
                0 <= j < rules@.len() ==> -MAX_SOLVED <= #[trigger] r.0@[j] <= MAX_SOLVED
                    && -MAX_SOLVED <= r.1@[j] <= MAX_SOLVED
        }),
{
    let cc = rules.len();
    let ghost cci = cc as int;
    let ghost target = solve_stack_spec(total as int, rules@);
    let mut sizes: Vec<i64> = Vec::new();
    let mut offsets: Vec<i64> = Vec::new();
    let mut frozen: Vec<bool> = Vec::new();
    let mut z: usize = 0;
    #[verifier::loop_isolation(false)]
    while z < cc
        invariant
            z <= cc,
            sizes@.len() == z,
            offsets@.len() == z,
            frozen@.len() == z,
            forall|j: int| 0 <= j < z ==> sizes@[j] == 0i64 && offsets@[j] == 0i64 && !frozen@[j],
        decreases cc - z,
    {
        sizes.push(0);
        offsets.push(0);
        frozen.push(false);
        z += 1;
    }
    let mut used: i64 = 0;
    let ghost mut cur = init_pass(cci);
    let ghost mut fuel: nat = rules@.len();
    proof {
        assert(i64s(sizes@) =~= cur.sizes);
        assert(i64s(offsets@) =~= cur.offsets);
        assert(frozen@ =~= cur.frozen);
        lemma_num_frozen_bounds(cur.frozen, cci);
        assert(num_frozen(cur.frozen, cci) >= 0);
        lemma_num_frozen_none(cur.frozen, cci);
    }
    loop
        invariant_except_break
            solve_rec(total as int, rules@, cur, fuel) == target,
            fuel >= cci - num_frozen(cur.frozen, cci),
            i64s(sizes@) =~= cur.sizes,
            i64s(offsets@) =~= cur.offsets,
            frozen@ =~= cur.frozen,
            used as int == cur.used,
            -0x20_0000 * num_frozen(cur.frozen, cci) <= used as int <= 0x20_0000 * num_frozen(
                cur.frozen,
                cci,
            ),
        invariant
            rules_ok(rules@),
            -MAX_EXTENT <= total <= MAX_EXTENT,
            cc == rules@.len(),
            cci == cc as int,
            target == solve_stack_spec(total as int, rules@),
            sizes@.len() == cc,
            offsets@.len() == cc,
            frozen@.len() == cc,
            cur.sizes.len() == cci,
            cur.offsets.len() == cci,
            cur.frozen.len() == cci,
            forall|j: int|
                0 <= j < cc ==> (frozen@[j] ==> -MAX_RULE_BOUND <= #[trigger] sizes@[j]
                    <= MAX_RULE_BOUND),
            forall|j: int|
                0 <= j < cc ==> -MAX_SOLVED <= #[trigger] sizes@[j] <= MAX_SOLVED && -MAX_SOLVED
                    <= offsets@[j] <= MAX_SOLVED,
        ensures
            i64s(sizes@) =~= target.sizes,
            i64s(offsets@) =~= target.offsets,
            frozen@ =~= target.frozen,
            forall|j: int|
                0 <= j < cc ==> -MAX_SOLVED <= #[trigger] sizes@[j] <= MAX_SOLVED && -MAX_SOLVED
                    <= offsets@[j] <= MAX_SOLVED,
        decreases fuel,
    {
        proof {
            lemma_num_frozen_bounds(cur.frozen, cci);
            let nf = num_frozen(cur.frozen, cci);
            assert(0 <= nf <= 0x1_0000);
            assert(used as int <= 0x20_0000_0000);
            assert(used as int >= -0x20_0000_0000);
        }
        let mut tf: i64 = 0;
        let mut j: usize = 0;
        #[verifier::loop_isolation(false)]
        while j < cc
            invariant
                j <= cc,
                tf as int == flex_sum(rules@, cur.frozen, j as int),
                0 <= tf <= 0x10_0000 * (j as i64),
            decreases cc - j,
        {
            if !frozen[j] {
                tf = tf + (rules[j].flex as i64);
            }
            j += 1;
        }
        let avail = total - used;
        let of: i64 = if tf == 0 {
            0
        } else {
            floor_div(avail, tf)
        };
        let ghost of_spec = if flex_sum(rules@, cur.frozen, cci) == 0 {
            0int
        } else {
            (total as int - cur.used) / flex_sum(rules@, cur.frozen, cci)
        };
        proof {
            assert(of as int == of_spec);
        }
        let ghost base = FlexPass { pos: 0, changed: false, ..cur };
        proof {
            lemma_last_unfrozen_props(base.frozen, cci);
        }
        let mut labs: i64 = -1;
        let mut j2: usize = 0;
        #[verifier::loop_isolation(false)]
        while j2 < cc
            invariant
                j2 <= cc,
                -1 <= labs < j2,
                labs as int == last_unfrozen(base.frozen, j2 as int),
            decreases cc - j2,
        {
            if !frozen[j2] {
                labs = j2 as i64;
            }
            j2 += 1;
        }
        let mut tail: i64 = 0;
        let mut j3: usize = if labs >= 0 {
            (labs as usize) + 1
        } else {
            cc
        };
        let ghost tail_from = j3 as int;
        #[verifier::loop_isolation(false)]
        while j3 < cc
            invariant
                tail_from <= j3 <= cc,
                labs >= 0 ==> tail_from == labs + 1,
                labs < 0 ==> tail_from == cc as int,
                tail as int == suffix_sum(i64s(sizes@), tail_from, j3 as int),
                -0x20_0000 * ((j3 as int) - tail_from) <= tail as int <= 0x20_0000 * ((
                j3 as int) - tail_from),
            decreases cc - j3,
        {
            proof {
                assert((labs as int) < (j3 as int));
                assert(base.frozen[j3 as int]);
                assert(frozen@[j3 as int]);
                lemma_suffix_snoc(i64s(sizes@), tail_from, j3 as int);
                lemma_num_frozen_bounds(base.frozen, cci);
            }
            tail = tail + sizes[j3];
            j3 += 1;
        }
        let ghost tail_spec = suffix_sum(base.sizes, labs as int + 1, cci);
        proof {
            assert(-0x20_0000_0000 <= tail <= 0x20_0000_0000);
            if labs >= 0 {
                assert(tail as int == suffix_sum(i64s(sizes@), labs as int + 1, cci));
                lemma_suffix_sum_same(i64s(sizes@), base.sizes, labs as int + 1, cci);
                assert(tail as int == tail_spec);
            }
        }
        let mut pos: i64 = 0;
        let mut changed = false;
        let ghost mut st = base;
        let mut i: usize = 0;
        #[verifier::loop_isolation(false)]
        while i < cc
            invariant
                i <= cc,
                st == pass_upto(total as int, rules@, of as int, labs as int, base, i as int),
                -1 <= labs < cc,
                labs as int == last_unfrozen(base.frozen, cci),
                labs >= 0 ==> tail as int == suffix_sum(base.sizes, labs as int + 1, cci),
                -0x20_0000_0000 <= tail <= 0x20_0000_0000,
                sizes@.len() == cc,
                offsets@.len() == cc,
                frozen@.len() == cc,
                st.sizes.len() == cci,
                st.offsets.len() == cci,
                st.frozen.len() == cci,
                i64s(sizes@) =~= st.sizes,
                i64s(offsets@) =~= st.offsets,
                frozen@ =~= st.frozen,
                used as int == st.used,
                pos as int == st.pos,
                changed == st.changed,
                -0x20_0000 * num_frozen(st.frozen, cci) <= used as int <= 0x20_0000 * num_frozen(
                    st.frozen,
                    cci,
                ),
                forall|j2: int|
                    0 <= j2 < cc ==> (frozen@[j2] ==> -MAX_RULE_BOUND <= #[trigger] sizes@[j2]
                        <= MAX_RULE_BOUND),
                forall|j2: int|
                    0 <= j2 < cc ==> -MAX_SOLVED <= #[trigger] sizes@[j2] <= MAX_SOLVED
                        && -MAX_SOLVED <= offsets@[j2] <= MAX_SOLVED,
                forall|j2: int|
                    i <= j2 < cc ==> st.frozen[j2] == base.frozen[j2] && st.sizes[j2]
                        == base.sizes[j2],
                -0x4000_0000_0000 * (i as int) <= pos as int <= 0x4000_0000_0000 * (i as int),
                tf as int == flex_sum(rules@, base.frozen, cci),
                0 <= tf <= 0x10_0000_0000,
                avail as int == total as int - base.used,
                -0x2000_0000_0000_0000 <= avail as int <= 0x2000_0000_0000_0000,
                (tf == 0 ==> of == 0),
                (tf != 0 ==> of as int == avail as int / tf as int),
            decreases cc - i,
        {
            proof {
                lemma_pass_props(total as int, rules@, of as int, labs as int, base, i as int);
                lemma_num_frozen_bounds(st.frozen, cci);
            }
            let ghost st_next = pass_child(
                total as int,
                rules@,
                of as int,
                labs as int,
                st,
                i as int,
            );
            if frozen[i] {
                offsets[i] = pos;
                let si = sizes[i];
                pos = pos + si;
                proof {
                    assert(i64s(sizes@) =~= st_next.sizes);
                    assert(i64s(offsets@) =~= st_next.offsets);
                    assert(frozen@ =~= st_next.frozen);
                }
            } else {
                proof {
                    if tf != 0 {
                        lemma_flex_member_le(rules@, base.frozen, i as int, cci);
                        lemma_share_bound(avail as int, rules@[i as int].flex as int, tf as int);
                        assert((rules@[i as int].flex as int) * (of as int)
                            <= 0x2000_1000_0000_0000);
                        assert((rules@[i as int].flex as int) * (of as int)
                            >= -0x2000_1000_0000_0000);
                    } else {
                        assert(of == 0);
                        assert((rules@[i as int].flex as int) * (of as int) == 0)
                            by (nonlinear_arith)
                            requires
                                of == 0,
                        ;
                    }
                }
                let w: i64 = (rules[i].flex as i64) * of;
                proof {
                    assert(w as int == share_of(rules@, of as int, i as int));
                    assert(-0x4000_0000_0000_0000 < w < 0x4000_0000_0000_0000);
                }
                let rule = *(&rules[i]);
                let mut hitmin = false;
                let mut hitmax = false;
                match rule.min {
                    Some(m) => {
                        if w < m {
                            hitmin = true;
                        }
                    },
                    None => {},
                }
                match rule.max {
                    Some(m) => {
                        if w > m {
                            hitmax = true;
                        }
                    },
                    None => {},
                }
                proof {
                    assert(rules@[i as int].flex <= MAX_FLEX);
                    let nf = num_frozen(st.frozen, cci);
                    assert(0 <= nf <= 0x1_0000);
                    assert(used as int <= 0x20_0000_0000);
                    assert(used as int >= -0x20_0000_0000);
                }
                if hitmin {
                    let m = rule.min.unwrap();
                    sizes[i] = m;
                    used = used + m;
                }
                if hitmax {
                    let m = rule.max.unwrap();
                    sizes[i] = m;
                    used = used + m;
                }
                if hitmin || hitmax {
                    frozen[i] = true;
                    changed = true;
                    proof {
                        lemma_num_frozen_update(st.frozen, i as int, cci);
                        assert(num_frozen(st.frozen.update(i as int, true), cci) == num_frozen(
                            st.frozen,
                            cci,
                        ) + 1);
                    }
                } else {
                    proof {
                        lemma_num_frozen_same(st.frozen.update(i as int, false), st.frozen, cci);
                    }
                    if (i as i64) == labs {
                        proof {
                            lemma_suffix_sum_same(st.sizes, base.sizes, i as int + 1, cci);
                            assert(suffix_sum(st.sizes, i as int + 1, cci) == tail as int);
                            assert(cci <= 0x1_0000);
                            assert(-0x4000_0000_0000 * 0x1_0000 <= pos as int
                                <= 0x4000_0000_0000 * 0x1_0000) by (nonlinear_arith)
                                requires
                                    -0x4000_0000_0000 * (i as int) <= pos as int
                                        <= 0x4000_0000_0000 * (i as int),
                                    0 <= i as int <= 0x1_0000,
                            ;
                        }
                        let a1 = total - pos;
                        let sz = a1 - tail;
                        sizes[i] = sz;
                        proof {
                            assert(pos as int + sz as int == total as int - tail as int);
                        }
                    } else {
                        sizes[i] = w;
                    }
                }
                offsets[i] = pos;
                let si = sizes[i];
                pos = pos + si;
                proof {
                    assert(i64s(sizes@) =~= st_next.sizes);
                    assert(i64s(offsets@) =~= st_next.offsets);
                    assert(frozen@ =~= st_next.frozen);
                    assert(pos as int == st_next.pos);
                    assert(used as int == st_next.used);
                }
            }
            proof {
                st = st_next;
            }
            i += 1;
        }
        proof {
            assert(st == do_pass(total as int, rules@, cur));
            lemma_pass_props(total as int, rules@, of as int, labs as int, base, cci);
        }
        if !changed {
            proof {
                assert(solve_rec(total as int, rules@, cur, fuel) == st);
            }
            break;
        }
        proof {
            let w = choose|j2: int| 0 <= j2 < cci && !base.frozen[j2] && st.frozen[j2];
            lemma_num_frozen_strict(cur.frozen, st.frozen, cci, w);
            lemma_num_frozen_bounds(cur.frozen, cci);
            lemma_num_frozen_bounds(st.frozen, cci);
            assert(num_frozen(cur.frozen, cci) <= cci - 1);
            assert(fuel >= 1);
            assert(solve_rec(total as int, rules@, cur, fuel) == solve_rec(
                total as int,
                rules@,
                st,
                (fuel - 1) as nat,
            ));
            lemma_solve_fuel(
                total as int,
                rules@,
                st,
                (fuel - 1) as nat,
                (fuel - 1) as nat,
            );
            cur = st;
            fuel = (fuel - 1) as nat;
        }
    }
    (sizes, offsets, frozen)
}


proof fn lemma_sizes_sum_same(a: Seq<int>, b: Seq<int>, i: int)
    requires
        0 <= i,
        forall|j: int| 0 <= j < i ==> a[j] == b[j],
    ensures
        sizes_sum(a, i) == sizes_sum(b, i),
    decreases i,
{
    if i > 0 {
        lemma_sizes_sum_same(a, b, i - 1);
    }
}

/// Within a pass, every offset is the running sum of the sizes before it,
/// and the running position is the sum of everything laid out so far.
proof fn lemma_pass_positions(total: int, rules: Seq<AxisRule>, of: int, labs: int, st0: FlexPass, i: int)
    requires
        0 <= i <= rules.len(),
        st0.sizes.len() == rules.len(),
        st0.offsets.len() == rules.len(),
        st0.frozen.len() == rules.len(),
    ensures
        ({
            let p = pass_upto(total, rules, of, labs, st0, i);
            &&& p.pos == st0.pos + sizes_sum(p.sizes, i)
            &&& forall|j: int| 0 <= j < i ==> p.offsets[j] == st0.pos + sizes_sum(p.sizes, j)
        }),
    decreases i,
{
    if i > 0 {
        lemma_pass_positions(total, rules, of, labs, st0, i - 1);
        lemma_pass_props(total, rules, of, labs, st0, i - 1);
        let q = pass_upto(total, rules, of, labs, st0, i - 1);
        let p = pass_child(total, rules, of, labs, q, i - 1);
        assert(forall|j: int| 0 <= j < i - 1 ==> p.sizes[j] == q.sizes[j]);
        lemma_sizes_sum_same(p.sizes, q.sizes, i - 1);
        assert forall|j: int| 0 <= j < i implies p.offsets[j] == st0.pos + sizes_sum(p.sizes, j) by {
            if j < i - 1 {
                lemma_sizes_sum_same(p.sizes, q.sizes, j);
            }
        }
    }
}

/// Flex conservation: whenever the distribution leaves any child unfrozen,
/// the last unfrozen child in layout order absorbs the rounding remainder,
/// so the resolved extents sum exactly to the container's extent, whatever
/// min/max bounds the other children were frozen at.
pub proof fn lemma_flex_conservation_rec(total: int, rules: Seq<AxisRule>, st: FlexPass, fuel: nat)
    requires
        rules.len() > 0,
        st.sizes.len() == rules.len(),
        st.offsets.len() == rules.len(),
        st.frozen.len() == rules.len(),
        fuel >= rules.len() - num_frozen(st.frozen, rules.len() as int),
        exists|j: int| 0 <= j < rules.len() && !solve_rec(total, rules, st, fuel).frozen[j],
    ensures
        sizes_sum(solve_rec(total, rules, st, fuel).sizes, rules.len() as int) == total,
    decreases fuel,
{
    let cc = rules.len() as int;
    let base = FlexPass { pos: 0, changed: false, ..st };
    let tf = flex_sum(rules, st.frozen, cc);
    let of = if tf == 0 { 0int } else { (total - st.used) / tf };
    let labs = last_unfrozen(st.frozen, cc);
    let p = pass_upto(total, rules, of, labs, base, cc);
    assert(p == do_pass(total, rules, st));
    lemma_pass_props(total, rules, of, labs, base, cc);
    lemma_last_unfrozen_props(st.frozen, cc);
    if p.changed {
        let w = choose|j: int| 0 <= j < cc && !base.frozen[j] && p.frozen[j];
        lemma_num_frozen_strict(st.frozen, p.frozen, cc, w);
        lemma_num_frozen_bounds(st.frozen, cc);
        lemma_num_frozen_bounds(p.frozen, cc);
        assert(num_frozen(st.frozen, cc) <= cc - 1) by {
            if num_frozen(st.frozen, cc) > cc - 1 {
                lemma_num_frozen_strict(st.frozen, p.frozen, cc, w);
            }
        }
        assert(fuel >= 1);
    }
    if !p.changed || fuel == 0 {
        assert(!p.changed);
        // the result is this very pass, and nobody froze in it
        assert(forall|j: int| 0 <= j < cc ==> p.frozen[j] == st.frozen[j]);
        let uf = choose|j: int| 0 <= j < rules.len() && !p.frozen[j];
        assert(!st.frozen[uf]);
        assert(0 <= labs < cc);
        assert(!base.frozen[labs]);
        let q = pass_upto(total, rules, of, labs, base, labs);
        lemma_pass_props(total, rules, of, labs, base, labs);
        assert(!q.frozen[labs]);
        let q2 = pass_upto(total, rules, of, labs, base, labs + 1);
        assert(q2 == pass_child(total, rules, of, labs, q, labs));
        // the absorber did not freeze: a freeze would mark the whole pass
        assert(!(q2.changed && !q.changed) || p.changed) by {
            if q2.changed {
                lemma_changed_mono(total, rules, of, labs, base, labs + 1, cc);
            }
        }
        assert(!q.changed) by {
            if q.changed {
                lemma_changed_mono(total, rules, of, labs, base, labs, cc);
            }
        }
        assert(!q2.changed);
        assert(q2.sizes[labs] == total - q.pos - suffix_sum(q.sizes, labs + 1, cc));
        // running offset before the absorber is the sum of the earlier sizes
        lemma_pass_positions(total, rules, of, labs, base, labs);
        assert(q.pos == sizes_sum(q.sizes, labs));
        // the prefix sizes never change after their own steps
        lemma_prefix_stable(total, rules, of, labs, base, labs, cc);
        assert(forall|j: int| 0 <= j < labs ==> p.sizes[j] == q.sizes[j]);
        lemma_sizes_sum_same(p.sizes, q.sizes, labs);
        // the absorber's size survives the remaining (all frozen) steps
        lemma_prefix_stable(total, rules, of, labs, base, labs + 1, cc);
        assert(p.sizes[labs] == q2.sizes[labs]);
        // the frozen tail keeps the sizes the pass started with
        assert forall|j: int| labs < j < cc implies p.sizes[j] == q.sizes[j] by {
            assert(base.frozen[j]);
            assert(p.sizes[j] == base.sizes[j]);
            assert(q.sizes[j] == base.sizes[j]);
        }
        lemma_suffix_sum_same(p.sizes, q.sizes, labs + 1, cc);
        lemma_sum_split(p.sizes, labs + 1, cc);
        assert(sizes_sum(p.sizes, labs + 1) == sizes_sum(p.sizes, labs) + p.sizes[labs]);
        assert(sizes_sum(p.sizes, cc) == q.pos + p.sizes[labs] + suffix_sum(q.sizes, labs + 1, cc));
    } else {
        assert(solve_rec(total, rules, st, fuel) == solve_rec(total, rules, p, (fuel - 1) as nat));
        let w = choose|j: int| 0 <= j < cc && !base.frozen[j] && p.frozen[j];
        lemma_num_frozen_strict(st.frozen, p.frozen, cc, w);
        lemma_flex_conservation_rec(total, rules, p, (fuel - 1) as nat);
    }
}

/// Flex conservation for the whole distribution, stated on its result:
/// whenever any child ends unfrozen, the extents sum exactly to the
/// container's extent.
pub proof fn lemma_flex_conservation(total: int, rules: Seq<AxisRule>)
    requires
        rules.len() > 0,
        exists|j: int| 0 <= j < rules.len() && !solve_stack_spec(total, rules).frozen[j],
    ensures
        sizes_sum(solve_stack_spec(total, rules).sizes, rules.len() as int) == total,
{
    lemma_num_frozen_none(init_pass(rules.len() as int).frozen, rules.len() as int);
    lemma_flex_conservation_rec(total, rules, init_pass(rules.len() as int), rules.len());
}

/// `sz` equals one of child `j`'s own declared bounds.
pub open spec fn at_own_bound(rules: Seq<AxisRule>, sz: int, j: int) -> bool {
    (rules[j].min is Some && sz == rules[j].min.unwrap() as int) || (rules[j].max is Some && sz
        == rules[j].max.unwrap() as int)
}

/// Every frozen child sits exactly at one of its own declared bounds.
pub open spec fn frozen_at_bounds(rules: Seq<AxisRule>, st: FlexPass) -> bool {
    forall|j: int|
        0 <= j < rules.len() && st.frozen[j] ==> at_own_bound(rules, #[trigger] st.sizes[j], j)
}

proof fn lemma_pass_frozen_at_bounds(total: int, rules: Seq<AxisRule>, of: int, labs: int, st0: FlexPass, i: int)
    requires
        0 <= i <= rules.len(),
        st0.sizes.len() == rules.len(),
        st0.offsets.len() == rules.len(),
        st0.frozen.len() == rules.len(),
        frozen_at_bounds(rules, st0),
    ensures
        frozen_at_bounds(rules, pass_upto(total, rules, of, labs, st0, i)),
    decreases i,
{
    if i > 0 {
        lemma_pass_frozen_at_bounds(total, rules, of, labs, st0, i - 1);
        lemma_pass_props(total, rules, of, labs, st0, i - 1);
        let q = pass_upto(total, rules, of, labs, st0, i - 1);
        let p = pass_child(total, rules, of, labs, q, i - 1);
        assert forall|j: int| 0 <= j < rules.len() && p.frozen[j] implies at_own_bound(
            rules,
            #[trigger] p.sizes[j],
            j,
        ) by {
            if j != i - 1 {
                assert(p.frozen[j] == q.frozen[j] && p.sizes[j] == q.sizes[j]);
                assert(at_own_bound(rules, q.sizes[j], j));
            } else {
                if q.frozen[j] {
                    assert(p.sizes[j] == q.sizes[j]);
                    assert(at_own_bound(rules, q.sizes[j], j));
                } else {
                    let w = share_of(rules, of, i - 1);
                    let hmn = rules[i - 1].min matches Some(m) && w < m;
                    let hmx = rules[i - 1].max matches Some(m) && w > m;
                    assert(hmn || hmx);
                    if hmx {
                        assert(p.sizes[j] == rules[j].max.unwrap() as int);
                    } else {
                        assert(p.sizes[j] == rules[j].min.unwrap() as int);
                    }
                }
            }
        }
    }
}

/// In a pass that froze nobody, every child that is unfrozen and not the
/// remainder-absorbing last unfrozen one took a share that passed its own
/// min and max checks.
proof fn lemma_pass_respect(total: int, rules: Seq<AxisRule>, of: int, labs: int, st0: FlexPass, i: int)
    requires
        0 <= i <= rules.len(),
        st0.sizes.len() == rules.len(),
        st0.offsets.len() == rules.len(),
        st0.frozen.len() == rules.len(),
    ensures
        ({
            let p = pass_upto(total, rules, of, labs, st0, i);
            !p.changed ==> forall|j: int|
                0 <= j < i && !p.frozen[j] && j != labs ==> ((rules[j].min matches Some(
                    m,
                ) ==> m <= #[trigger] p.sizes[j]) && (rules[j].max matches Some(m) ==> p.sizes[j]
                    <= m))
        }),
    decreases i,
{
    if i > 0 {
        lemma_pass_respect(total, rules, of, labs, st0, i - 1);
        lemma_pass_props(total, rules, of, labs, st0, i - 1);
        let q = pass_upto(total, rules, of, labs, st0, i - 1);
        let p = pass_child(total, rules, of, labs, q, i - 1);
        if !p.changed {
            assert(!q.changed);
            assert forall|j: int|
                0 <= j < i && !p.frozen[j] && j != labs implies ((rules[j].min matches
                Some(m) ==> m <= #[trigger] p.sizes[j]) && (rules[j].max matches Some(m)
                    ==> p.sizes[j] <= m)) by {
                if j < i - 1 {
                    assert(!q.frozen[j] && p.sizes[j] == q.sizes[j]);
                }
            }
        }
    }
}

/// With enough fuel the distribution reaches its fixed point: the last pass
/// froze nobody.
proof fn lemma_solve_settles(total: int, rules: Seq<AxisRule>, st: FlexPass, fuel: nat)
    requires
        st.sizes.len() == rules.len(),
        st.offsets.len() == rules.len(),
        st.frozen.len() == rules.len(),
        fuel >= rules.len() - num_frozen(st.frozen, rules.len() as int),
    ensures
        !solve_rec(total, rules, st, fuel).changed,
    decreases fuel,
{
    let cc = rules.len() as int;
    let base = FlexPass { pos: 0, changed: false, ..st };
    let tf = flex_sum(rules, st.frozen, cc);
    let of = if tf == 0 { 0int } else { (total - st.used) / tf };
    let labs = last_unfrozen(st.frozen, cc);
    let p = pass_upto(total, rules, of, labs, base, cc);
    assert(p == do_pass(total, rules, st));
    lemma_pass_props(total, rules, of, labs, base, cc);
    if p.changed {
        let w = choose|j: int| 0 <= j < cc && !base.frozen[j] && p.frozen[j];
        lemma_num_frozen_strict(st.frozen, p.frozen, cc, w);
        lemma_num_frozen_bounds(st.frozen, cc);
        lemma_num_frozen_bounds(p.frozen, cc);
        assert(num_frozen(st.frozen, cc) <= cc - 1) by {
            if num_frozen(st.frozen, cc) > cc - 1 {
                lemma_num_frozen_strict(st.frozen, p.frozen, cc, w);
            }
        }
        assert(fuel >= 1);
        lemma_solve_settles(total, rules, p, (fuel - 1) as nat);
    }
}

proof fn lemma_solve_respect_rec(total: int, rules: Seq<AxisRule>, st: FlexPass, fuel: nat)
    requires
        st.sizes.len() == rules.len(),
        st.offsets.len() == rules.len(),
        st.frozen.len() == rules.len(),
        frozen_at_bounds(rules, st),
        fuel >= rules.len() - num_frozen(st.frozen, rules.len() as int),
    ensures
        ({
            let s = solve_rec(total, rules, st, fuel);
            &&& s.sizes.len() == rules.len()
            &&& s.frozen.len() == rules.len()
            &&& frozen_at_bounds(rules, s)
            &&& forall|j: int|
                0 <= j < rules.len() && !s.frozen[j] && j != last_unfrozen(
                    s.frozen,
                    rules.len() as int,
                ) ==> ((rules[j].min matches Some(m) ==> m <= #[trigger] s.sizes[j]) && (
                rules[j].max matches Some(m) ==> s.sizes[j] <= m))
        }),
    decreases fuel,
{
    let cc = rules.len() as int;
    let base = FlexPass { pos: 0, changed: false, ..st };
    let tf = flex_sum(rules, st.frozen, cc);
    let of = if tf == 0 { 0int } else { (total - st.used) / tf };
    let labs = last_unfrozen(st.frozen, cc);
    let p = pass_upto(total, rules, of, labs, base, cc);
    assert(p == do_pass(total, rules, st));
    assert forall|j: int| 0 <= j < rules.len() && base.frozen[j] implies at_own_bound(
        rules,
        #[trigger] base.sizes[j],
        j,
    ) by {
        assert(base.sizes[j] == st.sizes[j] && st.frozen[j]);
        assert(at_own_bound(rules, st.sizes[j], j));
    }
    lemma_pass_frozen_at_bounds(total, rules, of, labs, base, cc);
    lemma_pass_props(total, rules, of, labs, base, cc);
    if !p.changed {
        lemma_pass_respect(total, rules, of, labs, base, cc);
        assert(p.frozen =~= st.frozen);
        assert(last_unfrozen(p.frozen, cc) == labs);
    } else {
        let w = choose|j: int| 0 <= j < cc && !base.frozen[j] && p.frozen[j];
        lemma_num_frozen_strict(st.frozen, p.frozen, cc, w);
        lemma_num_frozen_bounds(st.frozen, cc);
        lemma_num_frozen_bounds(p.frozen, cc);
        assert(num_frozen(st.frozen, cc) <= cc - 1) by {
            if num_frozen(st.frozen, cc) > cc - 1 {
                lemma_num_frozen_strict(st.frozen, p.frozen, cc, w);
            }
        }
        assert(fuel >= 1);
        lemma_solve_respect_rec(total, rules, p, (fuel - 1) as nat);
    }
}

/// Min/max respect: a child's resolved extent never violates its own
/// declared bounds, with one exception: the last unfrozen child in layout
/// order absorbs the remainder and may be driven outside its bounds by an
/// over-constrained container. Requires each child's declared min to be at
/// most its declared max.
pub proof fn lemma_min_max_respect(total: int, rules: Seq<AxisRule>)
    requires
        forall|i: int|
            0 <= i < rules.len() ==> ((#[trigger] rules[i]).min matches Some(mn) ==> (
            rules[i].max matches Some(mx) ==> mn <= mx)),
    ensures
        forall|i: int|
            0 <= i < rules.len() ==> ((i == last_unfrozen(
                solve_stack_spec(total, rules).frozen,
                rules.len() as int,
            )) || (((#[trigger] rules[i]).min matches Some(m) ==> m <= solve_stack_spec(
                total,
                rules,
            ).sizes[i]) && (rules[i].max matches Some(m) ==> solve_stack_spec(total, rules).sizes[i]
                <= m))),
{
    let cc = rules.len() as int;
    let s = solve_stack_spec(total, rules);
    lemma_num_frozen_none(init_pass(cc).frozen, cc);
    lemma_solve_respect_rec(total, rules, init_pass(cc), rules.len());
    lemma_last_unfrozen_props(s.frozen, cc);
    assert forall|i: int| 0 <= i < cc implies (i == last_unfrozen(s.frozen, cc)) || ((
    rules[i].min matches Some(m) ==> m <= #[trigger] s.sizes[i]) && (rules[i].max matches Some(m)
        ==> s.sizes[i] <= m)) by {
        if i != last_unfrozen(s.frozen, cc) {
            if s.frozen[i] {
                assert(at_own_bound(rules, s.sizes[i], i));
            }
        }
    }
}


/// The visible rule-carrying children of `c` among indices `0 .. upto`, in
/// index order: the children a stacking pass distributes over. An invisible
/// child consumes no space and is left out.
pub open spec fn kept_upto(v: SceneView, c: u32, upto: int) -> Seq<u32>
    decreases upto,
{
    if upto <= 0 {
        Seq::empty()
    } else {
        let rest = kept_upto(v, c, upto - 1);
        if v.parent[upto - 1] == Some(c) && v.stacking_rule[upto - 1] is Some && v.visible[upto - 1]
            != Some(false) {
            rest.push((upto - 1) as u32)
        } else {
            rest
        }
    }
}

/// All the children a stacking pass of `c` distributes over.
pub open spec fn kept_children(v: SceneView, c: u32) -> Seq<u32> {
    kept_upto(v, c, v.parent.len() as int)
}

/// A stacking rule projected onto the stacking axis.
pub open spec fn axis_rule_of(r: StackingRule, dir: StackDirection) -> AxisRule {
    match dir {
        StackDirection::Horizontal => AxisRule { flex: r.flex, min: r.min_width, max: r.max_width },
        StackDirection::Vertical => AxisRule { flex: r.flex, min: r.min_height, max: r.max_height },
    }
}

/// The per-axis rules of `c`'s kept children, in child order.
pub open spec fn axis_rules(v: SceneView, c: u32, dir: StackDirection) -> Seq<AxisRule> {
    Seq::new(
        kept_children(v, c).len(),
        |m: int| axis_rule_of(v.stacking_rule[kept_children(v, c)[m] as int].unwrap(), dir),
    )
}

/// What a laid-out child's block becomes: the solver's extent on the
/// stacking axis, the container's full extent on the cross axis, rows kept.
pub open spec fn laid_tb(
    old_tb: Option<TextBlockV>,
    dir: StackDirection,
    main: int,
    cross: int,
) -> TextBlockV {
    match dir {
        StackDirection::Horizontal => resized_tb(old_tb, main, cross),
        StackDirection::Vertical => resized_tb(old_tb, cross, main),
    }
}

/// A laid-out child's local position: the solver's offset along the
/// stacking axis, zero on the cross axis.
pub open spec fn laid_pos(dir: StackDirection, off: int) -> Position {
    match dir {
        StackDirection::Horizontal => Position { x: off as i64, y: 0 },
        StackDirection::Vertical => Position { x: 0, y: off as i64 },
    }
}

/// The distribution a context's pass computes: its own block's extent along
/// its axis, split over the per-axis rules of its kept children.
pub open spec fn context_solution(v: SceneView, c: u32) -> FlexPass {
    let dir = v.stacking_context[c as int].unwrap().direction;
    let total = if dir == StackDirection::Horizontal {
        v.text_block[c as int].unwrap().width
    } else {
        v.text_block[c as int].unwrap().height
    };
    solve_stack_spec(total, axis_rules(v, c, dir))
}

/// The `m`-th solved extent and offset of `c`'s pass both fit the storable
/// range.
pub open spec fn solved_in_range(v: SceneView, c: u32, m: int) -> bool {
    &&& -MAX_EXTENT <= context_solution(v, c).sizes[m] <= MAX_EXTENT
    &&& -MAX_EXTENT <= context_solution(v, c).offsets[m] <= MAX_EXTENT
}

/// A root stacking context.
pub open spec fn root_ctx(v: SceneView, i: int) -> bool {
    v.stacking_context[i] is Some && v.parent[i] is None
}

/// The contexts this frame's events mark dirty directly: every root context
/// when the screen was resized, and every context one of whose children had
/// a visibility event.
pub open spec fn stack_dirty0(v: SceneView, evs: Seq<TuiEvent>, i: int) -> bool {
    ||| (crate::render::has_resize_ev(evs) && root_ctx(v, i))
    ||| (v.stacking_context[i] is Some && exists|c: int|
        0 <= c < v.parent.len() && v.parent[c] == Some(i as u32)
            && crate::visibility::vis_event_set(evs).contains(c as u32))
}

/// A context this frame's pass can reach: marked dirty directly, or a
/// descendant of one that is (an inner context is re-queued by the pass of
/// the context above it).
pub open spec fn stack_reachable(v: SceneView, evs: Seq<TuiEvent>, i: int) -> bool {
    v.stacking_context[i] is Some && (stack_dirty0(v, evs, i) || exists|d: int|
        0 <= d < v.parent.len() && #[trigger] stack_dirty0(v, evs, d) && subtree_of(
            v.parent,
            v.order,
            d as u32,
        ).contains(i as u32))
}

/// Nodes this frame's pass may write: root contexts on a resize, and kept
/// children of reachable contexts.
pub open spec fn stack_written(v: SceneView, evs: Seq<TuiEvent>, i: int) -> bool {
    ||| (root_ctx(v, i) && stack_dirty0(v, evs, i))
    ||| (v.parent[i] matches Some(p) && stack_reachable(v, evs, p as int) && kept_children(
        v,
        p,
    ).contains(i as u32))
}

/// What a completed pass leaves at a dirty context `c`: every kept child
/// holds the solver's extent along the stacking axis and the container's
/// full extent across, at its running offset.
pub open spec fn stacked_done(v: SceneView, c: int) -> bool {
    forall|m: int|
        0 <= m < kept_children(v, c as u32).len() ==> {
            let x = (#[trigger] kept_children(v, c as u32)[m]) as int;
            let dir = v.stacking_context[c].unwrap().direction;
            let cross = if dir == StackDirection::Horizontal {
                v.text_block[c].unwrap().height
            } else {
                v.text_block[c].unwrap().width
            };
            let s = context_solution(v, c as u32);
            &&& v.text_block[x] matches Some(t) && t.width == (if dir
                == StackDirection::Horizontal {
                s.sizes[m]
            } else {
                cross
            }) && t.height == (if dir == StackDirection::Horizontal {
                cross
            } else {
                s.sizes[m]
            })
            &&& v.position[x] == Some(laid_pos(dir, s.offsets[m]))
        }
}

/// Every kept child really is a visible rule-carrying child of `c`.
pub proof fn lemma_kept_members(v: SceneView, c: u32, upto: int)
    requires
        upto <= 0x1_0000_0000,
    ensures
        forall|m: int|
            0 <= m < kept_upto(v, c, upto).len() ==> {
                let x = (#[trigger] kept_upto(v, c, upto)[m]) as int;
                &&& 0 <= x < upto
                &&& v.parent[x] == Some(c)
                &&& v.stacking_rule[x] is Some
                &&& v.visible[x] != Some(false)
            },
    decreases upto,
{
    if upto > 0 {
        lemma_kept_members(v, c, upto - 1);
        let prev = kept_upto(v, c, upto - 1);
        assert forall|m: int| 0 <= m < kept_upto(v, c, upto).len() implies {
            let x = (#[trigger] kept_upto(v, c, upto)[m]) as int;
            &&& 0 <= x < upto
            &&& v.parent[x] == Some(c)
            &&& v.stacking_rule[x] is Some
            &&& v.visible[x] != Some(false)
        } by {
            if m < prev.len() {
                assert(kept_upto(v, c, upto)[m] == prev[m]);
            }
        }
    }
}

proof fn lemma_push_contains(s: Seq<u32>, a: u32, x: u32)
    ensures
        s.push(a).contains(x) == (s.contains(x) || x == a),
{
    if s.contains(x) {
        let i = choose|i: int| 0 <= i < s.len() && s[i] == x;
        assert(s.push(a)[i] == x);
    }
    if x == a {
        assert(s.push(a)[s.len() as int] == x);
    }
    if s.push(a).contains(x) {
        let i = choose|i: int| 0 <= i < s.push(a).len() && s.push(a)[i] == x;
        if i < s.len() {
            assert(s[i] == x);
        }
    }
}

/// The kept children depend only on the parent relation, the rules and the
/// visibility flags.
pub proof fn lemma_kept_same(a: SceneView, b: SceneView, c: u32, upto: int)
    requires
        a.parent == b.parent,
        a.stacking_rule == b.stacking_rule,
        a.visible == b.visible,
    ensures
        kept_upto(a, c, upto) == kept_upto(b, c, upto),
    decreases upto,
{
    if upto > 0 {
        lemma_kept_same(a, b, c, upto - 1);
    }
}



/// A context directly below a reachable context is reachable itself: it is
/// a descendant of the same directly-dirtied context.
proof fn lemma_child_reachable(v: SceneView, evs: Seq<TuiEvent>, i: int, k: int)
    requires
        crate::scene::topo_ok(v.parent, v.order),
        0 <= i < v.parent.len(),
        0 <= k < v.parent.len(),
        v.parent.len() <= 0x1_0000_0000,
        stack_reachable(v, evs, i),
        v.parent[k] == Some(i as u32),
        v.stacking_context[k] is Some,
    ensures
        stack_reachable(v, evs, k),
{
    assert(v.order.contains((k as int) as u32));
    let kk = choose|kk: int| 0 <= kk < v.order.len() && v.order[kk] == k as u32;
    if stack_dirty0(v, evs, i) {
        lemma_subtree_rec(v.parent, v.order, i as u32);
        assert(subtree_of(v.parent, v.order, i as u32).contains(v.order[kk]));
        assert(stack_dirty0(v, evs, i) && subtree_of(v.parent, v.order, i as u32).contains(
            k as u32,
        ));
    } else {
        let d = choose|d: int|
            0 <= d < v.parent.len() && #[trigger] stack_dirty0(v, evs, d) && subtree_of(
                v.parent,
                v.order,
                d as u32,
            ).contains(i as u32);
        lemma_subtree_rec(v.parent, v.order, d as u32);
        assert(subtree_of(v.parent, v.order, d as u32).contains(v.order[kk]));
    }
}


/// A completed context layout survives writes that touch neither the
/// container's block nor its children.
proof fn lemma_done_stable(va: SceneView, vb: SceneView, c: int, n: int)
    requires
        0 <= c < n,
        n == va.parent.len(),
        n <= 0x1_0000_0000,
        vb.parent == va.parent,
        vb.stacking_rule == va.stacking_rule,
        vb.visible == va.visible,
        vb.stacking_context == va.stacking_context,
        vb.text_block[c] == va.text_block[c],
        forall|y: int|
            0 <= y < n && va.parent[y] == Some(c as u32) ==> vb.text_block[y] == va.text_block[y]
                && vb.position[y] == va.position[y],
        stacked_done(va, c),
    ensures
        stacked_done(vb, c),
{
    lemma_kept_same(va, vb, c as u32, n as int);
    lemma_kept_members(va, c as u32, n as int);
    let dir = va.stacking_context[c].unwrap().direction;
    let ka = kept_children(va, c as u32);
    assert(axis_rules(vb, c as u32, dir) =~= axis_rules(va, c as u32, dir));
    assert(context_solution(vb, c as u32) == context_solution(va, c as u32));
    assert forall|m: int| 0 <= m < kept_children(vb, c as u32).len() implies {
        let x = (#[trigger] kept_children(vb, c as u32)[m]) as int;
        let cross = if dir == StackDirection::Horizontal {
            vb.text_block[c].unwrap().height
        } else {
            vb.text_block[c].unwrap().width
        };
        let so = context_solution(vb, c as u32);
        &&& vb.text_block[x] matches Some(t) && t.width == (if dir == StackDirection::Horizontal {
            so.sizes[m]
        } else {
            cross
        }) && t.height == (if dir == StackDirection::Horizontal {
            cross
        } else {
            so.sizes[m]
        })
        &&& vb.position[x] == Some(laid_pos(dir, so.offsets[m]))
    } by {
        let x = kept_children(vb, c as u32)[m] as int;
        assert(kept_children(vb, c as u32)[m] == ka[m]);
        assert(va.parent[x] == Some(c as u32));
        assert(vb.text_block[x] == va.text_block[x] && vb.position[x] == va.position[x]);
    }
}

impl Tui {
    /// Lays out one stacking context `c`: the container's extent along its
    /// axis is distributed over its kept children with the flex solver,
    /// every kept child's block is resized (solver extent along the axis,
    /// the container's full extent across) and repositioned at its running
    /// offset, and each kept child that is itself a context is queued for
    /// its own pass. Refused with `ExtentOverflow` when a solved extent or
    /// offset leaves the storable range.
    #[verifier::rlimit(100)]
    pub fn apply_context(&mut self, c: u32, queue: &mut hibitset::BitSet) -> (r: Result<
        (),
        TuiError,
    >)
        requires
            old(self).wf(),
            c < old(self).scene.n(),
            old(self).scene@.stacking_context[c as int] is Some,
            old(self).scene@.text_block[c as int] is Some,
        ensures
            final(self).wf(),
            final(self).scene.n() == old(self).scene.n(),
            final(self).scene@ == (SceneView {
                position: final(self).scene@.position,
                text_block: final(self).scene@.text_block,
                ..old(self).scene@
            }),
            forall|i: int|
                0 <= i < old(self).scene.n() && !kept_children(old(self).scene@, c).contains(
                    i as u32,
                ) ==> final(self).scene@.position[i] == old(self).scene@.position[i] && final(self).scene@.text_block[i] == old(self).scene@.text_block[i],
            bits_of(*final(queue)) =~= bits_of(*old(queue)).union(
                Set::new(
                    |x: u32|
                        kept_children(old(self).scene@, c).contains(x) && old(self).scene@.stacking_context[x as int] is Some,
                ),
            ),
            final(self).position_log.cursors() == old(self).position_log.cursors(),
            final(self).text_block_log.cursors() == old(self).text_block_log.cursors(),
            final(self).visible_log == old(self).visible_log,
            final(self).zlevel_log == old(self).zlevel_log,
            final(self).global_log == old(self).global_log,
            final(self).hierarchy_log == old(self).hierarchy_log,
            final(self).snap == old(self).snap,
            final(self).snap_rows == old(self).snap_rows,
            final(self).last_screen == old(self).last_screen,
            final(self).backplane == old(self).backplane,
            forall|i: int|
                0 <= i < old(self).scene.n() && old(self).scene@.text_block[i] is Some ==> final(
                self).scene@.text_block[i] is Some,
            r is Err ==> r matches Err(TuiError::ExtentOverflow { .. }),
            (r is Err) == (exists|m: int|
                0 <= m < kept_children(old(self).scene@, c).len() && !(#[trigger] solved_in_range(
                    old(self).scene@,
                    c,
                    m,
                ))),
            r is Ok ==> forall|m: int|
                0 <= m < kept_children(old(self).scene@, c).len() ==> {
                    let x = (#[trigger] kept_children(old(self).scene@, c)[m]) as int;
                    let v0 = old(self).scene@;
                    let dir = v0.stacking_context[c as int].unwrap().direction;
                    let total = if dir == StackDirection::Horizontal {
                        v0.text_block[c as int].unwrap().width
                    } else {
                        v0.text_block[c as int].unwrap().height
                    };
                    let cross = if dir == StackDirection::Horizontal {
                        v0.text_block[c as int].unwrap().height
                    } else {
                        v0.text_block[c as int].unwrap().width
                    };
                    let s = solve_stack_spec(total, axis_rules(v0, c, dir));
                    final(self).scene@.text_block[x] == Some(
                        laid_tb(v0.text_block[x], dir, s.sizes[m], cross),
                    ) && final(self).scene@.position[x] == Some(laid_pos(dir, s.offsets[m]))
                },
    {
        let ghost v0 = self.scene@;
        let n = self.scene.node_count();
        let ctx = self.scene.get_stacking_context(c).unwrap();
        let dir = ctx.direction;
        let (total, cross) = match self.scene.get_text_block(c) {
            Some(tb) => {
                match dir {
                    StackDirection::Horizontal => (tb.width, tb.height),
                    StackDirection::Vertical => (tb.height, tb.width),
                }
            },
            None => (0, 0),
        };
        proof {
            assert(self.scene.slot_bounded(c as int));
            assert(-MAX_EXTENT <= total <= MAX_EXTENT && -MAX_EXTENT <= cross <= MAX_EXTENT);
        }
        let mut kept: Vec<u32> = Vec::new();
        let mut rules: Vec<AxisRule> = Vec::new();
        let mut j: usize = 0;
        #[verifier::loop_isolation(false)]
        while j < n
            invariant
                j <= n,
                kept@ == kept_upto(v0, c, j as int),
                rules@.len() == kept@.len(),
                forall|m: int|
                    0 <= m < kept@.len() ==> (#[trigger] kept@[m]) < n && v0.stacking_rule[kept@[m] as int]
                        is Some && rules@[m] == axis_rule_of(
                        v0.stacking_rule[kept@[m] as int].unwrap(),
                        dir,
                    ),
                kept@.len() <= j,
                forall|m: int| 0 <= m < kept@.len() ==> (#[trigger] kept@[m]) < j,
                forall|a: int, b: int| 0 <= a < b < kept@.len() ==> kept@[a] < kept@[b],
                bits_of(*queue) =~= bits_of(*old(queue)).union(
                    Set::new(
                        |x: u32|
                            kept_upto(v0, c, j as int).contains(x) && v0.stacking_context[x as int]
                                is Some,
                    ),
                ),
                *self == *old(self),
            decreases n - j,
        {
            let is_kept = match self.scene.get_parent(j as u32) {
                Some(p) => p == c && {
                    let has_rule = match self.scene.get_stacking_rule(j as u32) {
                        Some(_) => true,
                        None => false,
                    };
                    let vis = match self.scene.get_visible(j as u32) {
                        Some(b) => b,
                        None => true,
                    };
                    has_rule && vis
                },
                None => false,
            };
            if is_kept {
                let ghost keptb = kept@;
                kept.push(j as u32);
                proof {
                    assert forall|a: int, b: int| 0 <= a < b < kept@.len() implies kept@[a]
                        < kept@[b] by {
                        if b < keptb.len() {
                            assert(kept@[a] == keptb[a] && kept@[b] == keptb[b]);
                        } else {
                            assert(kept@[b] == j as u32);
                            assert(kept@[a] == keptb[a] && keptb[a] < j as u32);
                        }
                    }
                }
                let rule = self.scene.get_stacking_rule(j as u32).unwrap();
                let ar = match dir {
                    StackDirection::Horizontal => AxisRule {
                        flex: rule.flex,
                        min: rule.min_width,
                        max: rule.max_width,
                    },
                    StackDirection::Vertical => AxisRule {
                        flex: rule.flex,
                        min: rule.min_height,
                        max: rule.max_height,
                    },
                };
                rules.push(ar);
                let is_ctx = match self.scene.get_stacking_context(j as u32) {
                    Some(_) => true,
                    None => false,
                };
                if is_ctx {
                    bitset_add(queue, j as u32);
                }
                proof {
                    let prevk = kept_upto(v0, c, j as int);
                    assert(kept_upto(v0, c, j + 1) == prevk.push(j as u32));
                    assert forall|x: u32|
                        kept_upto(v0, c, j + 1).contains(x) == (prevk.contains(x) || x
                            == j as u32) by {
                        lemma_push_contains(prevk, j as u32, x);
                    }
                    assert(bits_of(*queue) =~= bits_of(*old(queue)).union(
                        Set::new(
                            |x: u32|
                                kept_upto(v0, c, j + 1).contains(x) && v0.stacking_context[x as int]
                                    is Some,
                        ),
                    ));
                }
            } else {
                proof {
                    assert(kept_upto(v0, c, j + 1) == kept_upto(v0, c, j as int));
                }
            }
            j += 1;
        }
        proof {
            assert(kept@ == kept_children(v0, c));
            assert(rules_ok(rules@)) by {
                assert(rules@.len() <= MAX_NODES);
                assert forall|m: int| 0 <= m < rules@.len() implies (#[trigger] rules@[m]).flex
                    <= MAX_FLEX && (rules@[m].min matches Some(b) ==> -MAX_RULE_BOUND <= b
                    <= MAX_RULE_BOUND) && (rules@[m].max matches Some(b) ==> -MAX_RULE_BOUND <= b
                    <= MAX_RULE_BOUND) by {
                    assert(self.scene.slot_bounded(kept@[m] as int));
                }
            }
            assert(rules@ =~= axis_rules(v0, c, dir));
        }
        let solved = solve_stack(total, &rules);
        let sizes = solved.0;
        let offsets = solved.1;
        let ghost s = solve_stack_spec(total as int, rules@);
        proof {
            assert(s == context_solution(v0, c));
        }
        proof {
            lemma_kept_members(v0, c, n as int);
        }
        let klen = kept.len();
        let mut m: usize = 0;
        let ghost mid = *self;
        #[verifier::loop_isolation(false)]
        while m < klen
            invariant
                m <= klen,
                klen == kept@.len(),
                sizes@.len() == klen,
                offsets@.len() == klen,
                self.wf(),
                self.scene.n() == old(self).scene.n(),
                self.scene@ == (SceneView {
                    position: self.scene@.position,
                    text_block: self.scene@.text_block,
                    ..v0
                }),
                forall|i: int|
                    0 <= i < n && !kept@.contains(i as u32) ==> self.scene@.position[i]
                        == v0.position[i] && self.scene@.text_block[i] == v0.text_block[i],
                forall|mm: int|
                    m <= mm < klen ==> self.scene@.position[kept@[mm] as int] == v0.position[kept@[mm] as int]
                        && self.scene@.text_block[kept@[mm] as int] == v0.text_block[kept@[mm] as int],
                forall|mm: int|
                    0 <= mm < m ==> self.scene@.text_block[#[trigger] kept@[mm] as int] == Some(
                        laid_tb(v0.text_block[kept@[mm] as int], dir, s.sizes[mm], cross as int),
                    ) && self.scene@.position[kept@[mm] as int] == Some(laid_pos(dir, s.offsets[mm])),
                forall|i: int|
                    0 <= i < n && v0.text_block[i] is Some ==> self.scene@.text_block[i] is Some,
                s == context_solution(v0, c),
                forall|mm: int| 0 <= mm < m ==> #[trigger] solved_in_range(v0, c, mm),
                self.position_log.cursors() == old(self).position_log.cursors(),
                self.text_block_log.cursors() == old(self).text_block_log.cursors(),
                self.visible_log == old(self).visible_log,
                self.zlevel_log == old(self).zlevel_log,
                self.global_log == old(self).global_log,
                self.hierarchy_log == old(self).hierarchy_log,
                self.snap == old(self).snap,
                self.snap_rows == old(self).snap_rows,
                self.last_screen == old(self).last_screen,
                self.backplane == old(self).backplane,
            decreases klen - m,
        {
            let x = kept[m];
            let main_sz = sizes[m];
            let off = offsets[m];
            if !(-MAX_EXTENT <= main_sz && main_sz <= MAX_EXTENT && -MAX_EXTENT <= off && off
                <= MAX_EXTENT) {
                proof {
                    assert(!solved_in_range(v0, c, m as int));
                }
                return Err(TuiError::ExtentOverflow { node: x });
            }
            proof {
                assert(solved_in_range(v0, c, m as int));
            }
            let (w, h) = match dir {
                StackDirection::Horizontal => (main_sz, cross),
                StackDirection::Vertical => (cross, main_sz),
            };
            let p = match dir {
                StackDirection::Horizontal => Position { x: off, y: 0 },
                StackDirection::Vertical => Position { x: 0, y: off },
            };
            proof {
                assert(kept@[m as int] == x && x < n);
                assert(v0.alive[x as int]) by {
                    assert(v0.parent[x as int] == Some(c));
                }
                assert forall|a: int| 0 <= a < klen && a != m implies kept@[a] != x by {
                    if a < m {
                        assert(kept@[a] < kept@[m as int]);
                    } else {
                        assert(kept@[m as int] < kept@[a]);
                    }
                }
            }
            self.bump_text_block_size(x, w, h);
            self.bump_position(x, p);
            proof {
                assert(self.scene@.text_block[x as int] == Some(
                    laid_tb(v0.text_block[x as int], dir, s.sizes[m as int], cross as int),
                ));
                assert(self.scene@.position[x as int] == Some(laid_pos(dir, s.offsets[m as int])));
            }
            m += 1;
        }
        proof {
            assert(!(exists|mm: int|
                0 <= mm < kept_children(v0, c).len() && !(#[trigger] solved_in_range(v0, c, mm))));
        }
        Ok(())
    }
}


impl Tui {
    /// The layout solver pass: finds every stacking context whose subtree
    /// got a visibility event, and every root context when the screen was
    /// resized, and recomputes each of them outermost first (a context laid
    /// out by its parent is re-queued for its own pass). Root contexts take
    /// the terminal's size as their own. Nothing outside root contexts and
    /// rule-carrying children of contexts is ever written.
    #[verifier::rlimit(100)]
    pub fn run_stacking(&mut self, evs: &Vec<TuiEvent>) -> (r: Result<(), TuiError>)
        requires
            old(self).wf(),
            forall|k: int|
                0 <= k < evs@.len() ==> ((#[trigger] evs@[k]) matches TuiEvent::Visible {
                    entity,
                    ..
                } ==> entity < old(self).scene.n()),
        ensures
            final(self).wf(),
            final(self).scene.n() == old(self).scene.n(),
            final(self).scene@ == (SceneView {
                position: final(self).scene@.position,
                text_block: final(self).scene@.text_block,
                ..old(self).scene@
            }),
            forall|i: int|
                0 <= i < old(self).scene.n() && !stack_written(old(self).scene@, evs@, i)
                    ==> final(self).scene@.position[i] == old(self).scene@.position[i] && final(self).scene@.text_block[i] == old(self).scene@.text_block[i],
            r is Ok ==> forall|c: int|
                0 <= c < old(self).scene.n() && #[trigger] stack_dirty0(old(self).scene@, evs@, c)
                    ==> stacked_done(final(self).scene@, c),
            final(self).position_log.cursors() == old(self).position_log.cursors(),
            final(self).text_block_log.cursors() == old(self).text_block_log.cursors(),
            final(self).visible_log == old(self).visible_log,
            final(self).zlevel_log == old(self).zlevel_log,
            final(self).global_log == old(self).global_log,
            final(self).hierarchy_log == old(self).hierarchy_log,
            final(self).snap == old(self).snap,
            final(self).snap_rows == old(self).snap_rows,
            final(self).last_screen == old(self).last_screen,
            final(self).backplane == old(self).backplane,
            (forall|k: int|
                0 <= k < evs@.len() ==> !((#[trigger] evs@[k]) is ScreenSize) && !(evs@[k]
                    is Visible)) ==> r is Ok && *final(self) == *old(self),
            r is Ok && (exists|k: int| 0 <= k < evs@.len() && (#[trigger] evs@[k]) is ScreenSize)
                ==> forall|i: int|
                0 <= i < old(self).scene.n() && old(self).scene@.stacking_context[i] is Some && old(
                self).scene@.parent[i] is None ==> final(self).scene@.text_block[i] == Some(
                    crate::scene::resized_tb(
                        old(self).scene@.text_block[i],
                        old(self).last_screen.width as int,
                        old(self).last_screen.height as int,
                    ),
                ),
            r matches Err(TuiError::StackingWithoutTextBlock { node }) ==> old(self).scene@.stacking_context[node as int] is Some && old(self).scene@.parent[node as int]
                is Some && old(self).scene@.text_block[node as int] is None,
            r is Err ==> (r matches Err(TuiError::StackingWithoutTextBlock { .. }) || r matches Err(
                TuiError::ExtentOverflow { .. },
            )),
            r matches Err(TuiError::ExtentOverflow { .. }) ==> exists|c: int, m: int|
                0 <= c < old(self).scene.n() && final(self).scene@.stacking_context[c] is Some && 0
                    <= m < kept_children(final(self).scene@, c as u32).len() && !(
                #[trigger] solved_in_range(final(self).scene@, c as u32, m)),
    {
        let ghost v0 = self.scene@;
        let n = self.scene.node_count();
        let screen = self.last_screen;
        let mut dirty_ctx = bitset_new();
        let mut dirty_ent = bitset_new();
        let mut has_resize = false;
        let mut k: usize = 0;
        #[verifier::loop_isolation(false)]
        while k < evs.len()
            invariant
                k <= evs@.len(),
                forall|x: u32| bits_of(dirty_ent).contains(x) ==> x < n,
                forall|x: u32|
                    bits_of(dirty_ent).contains(x) == (exists|kk: int|
                        0 <= kk < k && ((#[trigger] evs@[kk]) matches TuiEvent::Visible {
                            entity,
                            ..
                        } && entity == x)),
                bits_of(dirty_ctx) =~= Set::<u32>::empty(),
                has_resize == (exists|kk: int|
                    0 <= kk < k && (#[trigger] evs@[kk]) is ScreenSize),
                (forall|kk: int|
                    0 <= kk < k ==> !((#[trigger] evs@[kk]) is ScreenSize) && !(evs@[kk]
                        is Visible)) ==> !has_resize && bits_of(dirty_ent) =~= Set::<u32>::empty(),
            decreases evs@.len() - k,
        {
            match evs[k] {
                TuiEvent::ScreenSize { .. } => {
                    has_resize = true;
                    proof {
                        assert(evs@[k as int] is ScreenSize);
                    }
                },
                TuiEvent::Visible { entity, .. } => {
                    bitset_add(&mut dirty_ent, entity);
                    proof {
                        assert forall|x: u32| bits_of(dirty_ent).contains(x) implies (exists|
                            kk: int,
                        |
                            0 <= kk < k + 1 && ((#[trigger] evs@[kk]) matches TuiEvent::Visible {
                                entity: e2,
                                ..
                            } && e2 == x)) by {
                            if x == entity {
                                assert((evs@[k as int] matches TuiEvent::Visible { entity: e2, .. }
                                    && e2 == x));
                            }
                        }
                    }
                },
                _ => {},
            }
            k += 1;
        }
        proof {
            assert(bits_of(dirty_ent) =~= crate::visibility::vis_event_set(evs@));
            assert(has_resize == crate::render::has_resize_ev(evs@));
        }
        // roots are dirtied by a resize
        if has_resize {
            let mut i: usize = 0;
            #[verifier::loop_isolation(false)]
            while i < n
                invariant
                    i <= n,
                    has_resize,
                    forall|x: u32|
                        bits_of(dirty_ctx).contains(x) ==> x < n
                            && v0.stacking_context[x as int] is Some && stack_reachable(
                            v0,
                            evs@,
                            x as int,
                        ),
                    forall|i2: int|
                        0 <= i2 < i && v0.stacking_context[i2] is Some && v0.parent[i2] is None
                            ==> bits_of(dirty_ctx).contains(i2 as u32),
                decreases n - i,
            {
                let is_root_ctx = {
                    let has_ctx = match self.scene.get_stacking_context(i as u32) {
                        Some(_) => true,
                        None => false,
                    };
                    let is_root = match self.scene.get_parent(i as u32) {
                        Some(_) => false,
                        None => true,
                    };
                    has_ctx && is_root
                };
                if is_root_ctx {
                    bitset_add(&mut dirty_ctx, i as u32);
                }
                i += 1;
            }
        }
        // a dirty child dirties its parent context
        let mut j: usize = 0;
        #[verifier::loop_isolation(false)]
        while j < n
            invariant
                j <= n,
                forall|x: u32|
                    bits_of(dirty_ctx).contains(x) ==> x < n && v0.stacking_context[x as int]
                        is Some && stack_reachable(v0, evs@, x as int),
                has_resize ==> forall|i2: int|
                    0 <= i2 < n && v0.stacking_context[i2] is Some && v0.parent[i2] is None
                        ==> bits_of(dirty_ctx).contains(i2 as u32),
                forall|c2: int|
                    0 <= c2 < n && v0.stacking_context[c2] is Some && (exists|j2: int|
                        0 <= j2 < j && v0.parent[j2] == Some(c2 as u32) && bits_of(
                            dirty_ent,
                        ).contains(j2 as u32)) ==> bits_of(dirty_ctx).contains(c2 as u32),
                !has_resize && bits_of(dirty_ent) =~= Set::<u32>::empty() ==> bits_of(dirty_ctx)
                    =~= Set::<u32>::empty(),
            decreases n - j,
        {
            if bitset_contains(&dirty_ent, j as u32) {
                match self.scene.get_parent(j as u32) {
                    Some(p) => {
                        let has_ctx = match self.scene.get_stacking_context(p) {
                            Some(_) => true,
                            None => false,
                        };
                        if has_ctx {
                            proof {
                                assert(v0.parent[j as int] == Some(p));
                            }
                            bitset_add(&mut dirty_ctx, p);
                        }
                    },
                    None => {},
                }
            }
            j += 1;
        }
        if bitset_is_empty(&dirty_ctx) {
            proof {
                assert forall|c: int| 0 <= c < n implies !(#[trigger] stack_dirty0(
                    v0,
                    evs@,
                    c,
                )) by {
                    if stack_dirty0(v0, evs@, c) {
                        if crate::render::has_resize_ev(evs@) && root_ctx(v0, c) {
                            assert(bits_of(dirty_ctx).contains(c as u32));
                        } else {
                            let j2 = choose|j2: int|
                                0 <= j2 < v0.parent.len() && v0.parent[j2] == Some(c as u32)
                                    && crate::visibility::vis_event_set(evs@).contains(j2 as u32);
                            assert(bits_of(dirty_ent).contains(j2 as u32));
                            assert(bits_of(dirty_ctx).contains(c as u32));
                        }
                    }
                }
                if has_resize {
                    assert forall|i2: int|
                        0 <= i2 < n && v0.stacking_context[i2] is Some && v0.parent[i2] is None
                        implies self.scene@.text_block[i2] == Some(
                        crate::scene::resized_tb(
                            v0.text_block[i2],
                            screen.width as int,
                            screen.height as int,
                        ),
                    ) by {
                        assert(bits_of(dirty_ctx).contains(i2 as u32));
                    }
                }
            }
            return Ok(());
        }
        // roots first, outermost before nested
        let mut i: usize = 0;
        #[verifier::loop_isolation(false)]
        while i < n
            invariant
                i <= n,
                self.wf(),
                self.scene.n() == n,
                self.scene@ == (SceneView {
                    position: self.scene@.position,
                    text_block: self.scene@.text_block,
                    ..v0
                }),
                forall|x: u32|
                    bits_of(dirty_ctx).contains(x) ==> x < n && v0.stacking_context[x as int]
                        is Some && stack_reachable(v0, evs@, x as int),
                forall|i2: int|
                    0 <= i2 < n && !stack_written(v0, evs@, i2) ==> self.scene@.position[i2]
                        == v0.position[i2] && self.scene@.text_block[i2] == v0.text_block[i2],
                forall|i2: int|
                    0 <= i2 < n && v0.text_block[i2] is Some ==> self.scene@.text_block[i2]
                        is Some,
                has_resize ==> forall|i2: int|
                    0 <= i2 < n && v0.stacking_context[i2] is Some && v0.parent[i2] is None
                        ==> bits_of(dirty_ctx).contains(i2 as u32),
                forall|c2: int|
                    0 <= c2 < n && v0.stacking_context[c2] is Some && (exists|j2: int|
                        0 <= j2 < n && v0.parent[j2] == Some(c2 as u32) && bits_of(
                            dirty_ent,
                        ).contains(j2 as u32)) ==> bits_of(dirty_ctx).contains(c2 as u32),
                has_resize ==> forall|i2: int|
                    0 <= i2 < i && v0.stacking_context[i2] is Some && v0.parent[i2] is None
                        ==> self.scene@.text_block[i2] == Some(
                        crate::scene::resized_tb(
                            v0.text_block[i2],
                            screen.width as int,
                            screen.height as int,
                        ),
                    ),
                forall|c2: int|
                    0 <= c2 < i && stack_dirty0(v0, evs@, c2) && v0.parent[c2] is None
                        ==> #[trigger] stacked_done(self.scene@, c2),
                forall|i2: int|
                    i <= i2 < n && v0.stacking_context[i2] is Some && v0.parent[i2] is None
                        ==> self.scene@.text_block[i2] == v0.text_block[i2],
                self.position_log.cursors() == old(self).position_log.cursors(),
                self.text_block_log.cursors() == old(self).text_block_log.cursors(),
                self.visible_log == old(self).visible_log,
                self.zlevel_log == old(self).zlevel_log,
                self.global_log == old(self).global_log,
                self.hierarchy_log == old(self).hierarchy_log,
                self.snap == old(self).snap,
                self.snap_rows == old(self).snap_rows,
                self.last_screen == old(self).last_screen,
                self.backplane == old(self).backplane,
            decreases n - i,
        {
            let ghost roots_done = self.scene@;
            let process = bitset_contains(&dirty_ctx, i as u32) && {
                let is_root = match self.scene.get_parent(i as u32) {
                    Some(_) => false,
                    None => true,
                };
                is_root
            };
            if !process {
                proof {
                    if has_resize && v0.stacking_context[i as int] is Some && v0.parent[i as int]
                        is None {
                        assert(bits_of(dirty_ctx).contains(i as u32));
                        assert(self.scene@.parent[i as int] == v0.parent[i as int]);
                    }
                    if stack_dirty0(v0, evs@, i as int) && v0.parent[i as int] is None {
                        assert(bits_of(dirty_ctx).contains(i as u32)) by {
                            if !crate::render::has_resize_ev(evs@) || !root_ctx(v0, i as int) {
                                let j2 = choose|j2: int|
                                    0 <= j2 < v0.parent.len() && v0.parent[j2] == Some(i as u32)
                                        && crate::visibility::vis_event_set(evs@).contains(
                                        j2 as u32,
                                    );
                                assert(bits_of(dirty_ent).contains(j2 as u32));
                            }
                        }
                        assert(self.scene@.parent[i as int] == v0.parent[i as int]);
                        assert(false);
                    }
                }
            }
            if process {
                proof {
                    assert(v0.stacking_context[i as int] is Some);
                    assert(self.scene@.alive[i as int]) by {
                        if !v0.alive[i as int] {
                            assert(old(self).scene.slot_clean(i as int));
                        }
                    }
                }
                proof {
                    assert(stack_reachable(v0, evs@, i as int));
                    assert(stack_dirty0(v0, evs@, i as int)) by {
                        if !stack_dirty0(v0, evs@, i as int) {
                            let d = choose|d: int|
                                0 <= d < v0.parent.len() && #[trigger] stack_dirty0(v0, evs@, d)
                                    && subtree_of(v0.parent, v0.order, d as u32).contains(
                                    i as u32,
                                );
                            lemma_subtree_rec(v0.parent, v0.order, d as u32);
                            assert(v0.order.contains((i as int) as u32));
                        }
                    }
                    assert(stack_written(v0, evs@, i as int));
                }
                self.bump_text_block_size(i as u32, screen.width, screen.height);
                let ghost pre = self.scene@;
                let ghost qpre = bits_of(dirty_ctx);
                let rr = self.apply_context(i as u32, &mut dirty_ctx);
                proof {
                    lemma_kept_same(pre, v0, i as u32, n as int);
                    lemma_kept_same(self.scene@, v0, i as u32, n as int);
                    lemma_kept_members(v0, i as u32, n as int);
                    assert forall|i2: int|
                        0 <= i2 < n && !stack_written(v0, evs@, i2) implies self.scene@.position[i2]
                        == v0.position[i2] && self.scene@.text_block[i2] == v0.text_block[i2] by {
                        if kept_children(pre, i as u32).contains(i2 as u32) {
                            let kc = kept_children(pre, i as u32);
                            let m = choose|m: int| 0 <= m < kc.len() && kc[m] == i2 as u32;
                            assert(kc[m] == kept_children(v0, i as u32)[m]);
                            assert(v0.parent[i2] == Some(i as u32) && v0.stacking_rule[i2]
                                is Some);
                            assert(kept_children(v0, i as u32).contains(i2 as u32));
                            assert(stack_written(v0, evs@, i2));
                        }
                    }
                    assert forall|x: u32| bits_of(dirty_ctx).contains(x) implies x < n
                        && v0.stacking_context[x as int] is Some && stack_reachable(
                        v0,
                        evs@,
                        x as int,
                    ) by {
                        if !qpre.contains(x) {
                            assert(kept_children(pre, i as u32).contains(x));
                            let kc = kept_children(pre, i as u32);
                            let m = choose|m: int| 0 <= m < kc.len() && kc[m] == x;
                            assert(kc[m] == kept_children(v0, i as u32)[m]);
                            assert(v0.parent[x as int] == Some(i as u32));
                            lemma_child_reachable(v0, evs@, i as int, x as int);
                        }
                    }
                    assert forall|i2: int|
                        0 <= i2 < n && (kept_children(pre, i as u32).contains(i2 as u32)
                            || i2 == i as int) implies self.scene@.parent[i2] == v0.parent[i2]
                        || i2 == i as int by {}
                    assert forall|i2: int|
                        0 <= i2 < n && v0.stacking_context[i2] is Some && v0.parent[i2] is None
                        implies !kept_children(pre, i as u32).contains(i2 as u32) by {
                        if kept_children(pre, i as u32).contains(i2 as u32) {
                            let kc = kept_children(pre, i as u32);
                            let m = choose|m: int| 0 <= m < kc.len() && kc[m] == i2 as u32;
                            assert(kc[m] == kept_children(v0, i as u32)[m]);
                            assert(v0.parent[i2] == Some(i as u32));
                        }
                    }
                    assert forall|i2: int|
                        0 <= i2 < i + 1 && v0.stacking_context[i2] is Some && v0.parent[i2]
                            is None && has_resize implies self.scene@.text_block[i2] == Some(
                        crate::scene::resized_tb(
                            v0.text_block[i2],
                            screen.width as int,
                            screen.height as int,
                        ),
                    ) by {
                        if i2 == i as int {
                            assert(roots_done.text_block[i2] == v0.text_block[i2]);
                            assert(pre.text_block[i2] == Some(
                                crate::scene::resized_tb(
                                    v0.text_block[i2],
                                    screen.width as int,
                                    screen.height as int,
                                ),
                            ));
                        } else {
                            assert(roots_done.text_block[i2] == Some(
                                crate::scene::resized_tb(
                                    v0.text_block[i2],
                                    screen.width as int,
                                    screen.height as int,
                                ),
                            ));
                        }
                    }
                    assert forall|i2: int|
                        i + 1 <= i2 < n && v0.stacking_context[i2] is Some && v0.parent[i2]
                            is None implies self.scene@.text_block[i2] == v0.text_block[i2] by {
                        assert(roots_done.text_block[i2] == v0.text_block[i2]);
                    }
                }
                match rr {
                    Ok(()) => {},
                    Err(e) => {
                        proof {
                            if rr is Err {
                                let m = choose|m: int|
                                    0 <= m < kept_children(pre, i as u32).len() && !(
                                    #[trigger] solved_in_range(pre, i as u32, m));
                                lemma_kept_same(self.scene@, pre, i as u32, n as int);
                                assert(self.scene@.text_block[i as int]
                                    == pre.text_block[i as int]) by {
                                    if kept_children(pre, i as u32).contains(i as u32) {
                                        let kc = kept_children(pre, i as u32);
                                        let mm = choose|mm: int|
                                            0 <= mm < kc.len() && kc[mm] == i as u32;
                                        assert(kc[mm] == kept_children(v0, i as u32)[mm]);
                                        assert(v0.parent[i as int] == Some(i as u32));
                                    }
                                }
                                assert(axis_rules(
                                    self.scene@,
                                    i as u32,
                                    v0.stacking_context[i as int].unwrap().direction,
                                ) =~= axis_rules(
                                    pre,
                                    i as u32,
                                    v0.stacking_context[i as int].unwrap().direction,
                                ));
                                assert(context_solution(self.scene@, i as u32)
                                    == context_solution(pre, i as u32));
                                assert(!solved_in_range(self.scene@, i as u32, m));
                            }
                        }
                        return Err(e);
                    },
                }
                proof {
                    let dir = v0.stacking_context[i as int].unwrap().direction;
                    assert(self.scene@.text_block[i as int] == pre.text_block[i as int]) by {
                        if kept_children(pre, i as u32).contains(i as u32) {
                            let kc = kept_children(pre, i as u32);
                            let m = choose|m: int| 0 <= m < kc.len() && kc[m] == i as u32;
                            assert(kc[m] == kept_children(v0, i as u32)[m]);
                            assert(v0.parent[i as int] == Some(i as u32));
                        }
                    }
                    assert(axis_rules(self.scene@, i as u32, dir) =~= axis_rules(pre, i as u32, dir));
                    assert(context_solution(self.scene@, i as u32) == context_solution(
                        pre,
                        i as u32,
                    ));
                    assert(stacked_done(self.scene@, i as int)) by {
                        let so = context_solution(pre, i as u32);
                        let crossv = if dir == StackDirection::Horizontal {
                            pre.text_block[i as int].unwrap().height
                        } else {
                            pre.text_block[i as int].unwrap().width
                        };
                        assert forall|m: int|
                            0 <= m < kept_children(self.scene@, i as u32).len() implies {
                            let x2 = (#[trigger] kept_children(self.scene@, i as u32)[m]) as int;
                            &&& self.scene@.text_block[x2] matches Some(t) && t.width == (if dir
                                == StackDirection::Horizontal {
                                so.sizes[m]
                            } else {
                                crossv
                            }) && t.height == (if dir == StackDirection::Horizontal {
                                crossv
                            } else {
                                so.sizes[m]
                            })
                            &&& self.scene@.position[x2] == Some(laid_pos(dir, so.offsets[m]))
                        } by {
                            assert(kept_children(self.scene@, i as u32)[m] == kept_children(
                                pre,
                                i as u32,
                            )[m]);
                        }
                    }
                    assert forall|c2: int|
                        0 <= c2 < i + 1 && stack_dirty0(v0, evs@, c2) && v0.parent[c2] is None
                        implies #[trigger] stacked_done(self.scene@, c2) by {
                        if c2 < i {
                            assert(stacked_done(roots_done, c2));
                            assert(self.scene@.text_block[c2] == roots_done.text_block[c2]) by {
                                if kept_children(pre, i as u32).contains(c2 as u32) {
                                    let kc = kept_children(pre, i as u32);
                                    let m = choose|m: int| 0 <= m < kc.len() && kc[m] == c2 as u32;
                                    assert(kc[m] == kept_children(v0, i as u32)[m]);
                                    assert(v0.parent[c2] == Some(i as u32));
                                }
                            }
                            assert forall|y: int|
                                0 <= y < n && v0.parent[y] == Some(c2 as u32)
                                implies self.scene@.text_block[y] == roots_done.text_block[y]
                                && self.scene@.position[y] == roots_done.position[y] by {
                                assert(y != i as int);
                                if kept_children(pre, i as u32).contains(y as u32) {
                                    let kc = kept_children(pre, i as u32);
                                    let m = choose|m: int| 0 <= m < kc.len() && kc[m] == y as u32;
                                    assert(kc[m] == kept_children(v0, i as u32)[m]);
                                    assert(v0.parent[y] == Some(i as u32));
                                }
                            }
                            lemma_done_stable(roots_done, self.scene@, c2, n as int);
                        }
                    }
                }
            }
            i += 1;
        }
        // then every listed node in ancestors-first order
        let olen = self.scene.order_len();
        let mut k2: usize = 0;
        #[verifier::loop_isolation(false)]
        while k2 < olen
            invariant
                k2 <= olen,
                olen == self.scene@.order.len(),
                self.wf(),
                self.scene.n() == n,
                self.scene@ == (SceneView {
                    position: self.scene@.position,
                    text_block: self.scene@.text_block,
                    ..v0
                }),
                has_resize ==> forall|i2: int|
                    0 <= i2 < n && v0.stacking_context[i2] is Some && v0.parent[i2] is None
                        ==> self.scene@.text_block[i2] == Some(
                        crate::scene::resized_tb(
                            v0.text_block[i2],
                            screen.width as int,
                            screen.height as int,
                        ),
                    ),
                forall|x: u32|
                    bits_of(dirty_ctx).contains(x) ==> x < n && v0.stacking_context[x as int]
                        is Some && stack_reachable(v0, evs@, x as int),
                forall|i2: int|
                    0 <= i2 < n && !stack_written(v0, evs@, i2) ==> self.scene@.position[i2]
                        == v0.position[i2] && self.scene@.text_block[i2] == v0.text_block[i2],
                forall|i2: int|
                    0 <= i2 < n && v0.text_block[i2] is Some ==> self.scene@.text_block[i2]
                        is Some,
                forall|c2: int|
                    0 <= c2 < n && stack_dirty0(v0, evs@, c2) && v0.parent[c2] is None
                        ==> #[trigger] stacked_done(self.scene@, c2),
                forall|c2: int|
                    0 <= c2 < n && v0.stacking_context[c2] is Some && (exists|j2: int|
                        0 <= j2 < n && v0.parent[j2] == Some(c2 as u32) && bits_of(
                            dirty_ent,
                        ).contains(j2 as u32)) ==> bits_of(dirty_ctx).contains(c2 as u32),
                forall|j2: int|
                    0 <= j2 < k2 && stack_dirty0(v0, evs@, v0.order[j2] as int)
                        ==> #[trigger] stacked_done(self.scene@, v0.order[j2] as int),
                self.position_log.cursors() == old(self).position_log.cursors(),
                self.text_block_log.cursors() == old(self).text_block_log.cursors(),
                self.visible_log == old(self).visible_log,
                self.zlevel_log == old(self).zlevel_log,
                self.global_log == old(self).global_log,
                self.hierarchy_log == old(self).hierarchy_log,
                self.snap == old(self).snap,
                self.snap_rows == old(self).snap_rows,
                self.last_screen == old(self).last_screen,
                self.backplane == old(self).backplane,
            decreases olen - k2,
        {
            let ghost iter0 = self.scene@;
            let x = self.scene.order_at(k2);
            proof {
                assert(v0.order[k2 as int] == x);
            }
            if !bitset_contains(&dirty_ctx, x) {
                proof {
                    if stack_dirty0(v0, evs@, x as int) {
                        assert(v0.parent[x as int] is Some);
                        let j2 = choose|j2: int|
                            0 <= j2 < v0.parent.len() && v0.parent[j2] == Some(x)
                                && crate::visibility::vis_event_set(evs@).contains(j2 as u32);
                        assert(bits_of(dirty_ent).contains(j2 as u32));
                        assert(false);
                    }
                }
            }
            if bitset_contains(&dirty_ctx, x) {
                proof {
                    assert(v0.stacking_context[x as int] is Some);
                    assert(self.scene@.alive[x as int]) by {
                        if !v0.alive[x as int] {
                            assert(old(self).scene.slot_clean(x as int));
                        }
                    }
                }
                let has_tb = match self.scene.get_text_block(x) {
                    Some(_) => true,
                    None => false,
                };
                if !has_tb {
                    proof {
                        assert(self.scene@.text_block[x as int] is None);
                        assert(v0.text_block[x as int] is None);
                    }
                    return Err(TuiError::StackingWithoutTextBlock { node: x });
                }
                let ghost pre = self.scene@;
                let ghost qpre = bits_of(dirty_ctx);
                proof {
                    assert(stack_reachable(v0, evs@, x as int));
                }
                let rr = self.apply_context(x, &mut dirty_ctx);
                proof {
                    lemma_kept_same(pre, v0, x, n as int);
                    lemma_kept_same(self.scene@, v0, x, n as int);
                    lemma_kept_members(v0, x, n as int);
                    assert forall|i2: int|
                        0 <= i2 < n && !stack_written(v0, evs@, i2) implies self.scene@.position[i2]
                        == v0.position[i2] && self.scene@.text_block[i2] == v0.text_block[i2] by {
                        if kept_children(pre, x).contains(i2 as u32) {
                            let kc = kept_children(pre, x);
                            let m = choose|m: int| 0 <= m < kc.len() && kc[m] == i2 as u32;
                            assert(kc[m] == kept_children(v0, x)[m]);
                            assert(v0.parent[i2] == Some(x) && v0.stacking_rule[i2] is Some);
                            assert(kept_children(v0, x).contains(i2 as u32));
                            assert(stack_written(v0, evs@, i2));
                        }
                    }
                    assert forall|x2: u32| bits_of(dirty_ctx).contains(x2) implies x2 < n
                        && v0.stacking_context[x2 as int] is Some && stack_reachable(
                        v0,
                        evs@,
                        x2 as int,
                    ) by {
                        if !qpre.contains(x2) {
                            assert(kept_children(pre, x).contains(x2));
                            let kc = kept_children(pre, x);
                            let m = choose|m: int| 0 <= m < kc.len() && kc[m] == x2;
                            assert(kc[m] == kept_children(v0, x)[m]);
                            assert(v0.parent[x2 as int] == Some(x));
                            lemma_child_reachable(v0, evs@, x as int, x2 as int);
                        }
                    }
                    if has_resize {
                        assert forall|i2: int|
                            0 <= i2 < n && v0.stacking_context[i2] is Some && v0.parent[i2]
                                is None implies self.scene@.text_block[i2] == Some(
                            crate::scene::resized_tb(
                                v0.text_block[i2],
                                screen.width as int,
                                screen.height as int,
                            ),
                        ) by {
                            assert(!kept_children(pre, x).contains(i2 as u32)) by {
                                if kept_children(pre, x).contains(i2 as u32) {
                                    let kc = kept_children(pre, x);
                                    let m = choose|m: int|
                                        0 <= m < kc.len() && kc[m] == i2 as u32;
                                    assert(kc[m] == kept_children(v0, x)[m]);
                                    assert(v0.parent[i2] == Some(x));
                                }
                            }
                        }
                    }
                }
                match rr {
                    Ok(()) => {},
                    Err(e) => {
                        proof {
                            if rr is Err {
                                let m = choose|m: int|
                                    0 <= m < kept_children(pre, x).len() && !(
                                    #[trigger] solved_in_range(pre, x, m));
                                lemma_kept_same(self.scene@, pre, x, n as int);
                                assert(self.scene@.text_block[x as int]
                                    == pre.text_block[x as int]) by {
                                    if kept_children(pre, x).contains(x) {
                                        let kc = kept_children(pre, x);
                                        let mm = choose|mm: int| 0 <= mm < kc.len() && kc[mm] == x;
                                        assert(kc[mm] == kept_children(v0, x)[mm]);
                                        assert(v0.parent[x as int] == Some(x));
                                    }
                                }
                                assert(axis_rules(
                                    self.scene@,
                                    x,
                                    v0.stacking_context[x as int].unwrap().direction,
                                ) =~= axis_rules(
                                    pre,
                                    x,
                                    v0.stacking_context[x as int].unwrap().direction,
                                ));
                                assert(context_solution(self.scene@, x) == context_solution(
                                    pre,
                                    x,
                                ));
                                assert(!solved_in_range(self.scene@, x, m));
                            }
                        }
                        return Err(e);
                    },
                }
                proof {
                    let dir = v0.stacking_context[x as int].unwrap().direction;
                    assert(self.scene@.text_block[x as int] == pre.text_block[x as int]) by {
                        if kept_children(pre, x).contains(x) {
                            let kc = kept_children(pre, x);
                            let m = choose|m: int| 0 <= m < kc.len() && kc[m] == x;
                            assert(kc[m] == kept_children(v0, x)[m]);
                            assert(v0.parent[x as int] == Some(x));
                        }
                    }
                    assert(axis_rules(self.scene@, x, dir) =~= axis_rules(pre, x, dir));
                    assert(context_solution(self.scene@, x) == context_solution(pre, x));
                    assert(stacked_done(self.scene@, x as int)) by {
                        let so = context_solution(pre, x);
                        let crossv = if dir == StackDirection::Horizontal {
                            pre.text_block[x as int].unwrap().height
                        } else {
                            pre.text_block[x as int].unwrap().width
                        };
                        assert forall|m: int|
                            0 <= m < kept_children(self.scene@, x).len() implies {
                            let x2 = (#[trigger] kept_children(self.scene@, x)[m]) as int;
                            &&& self.scene@.text_block[x2] matches Some(t) && t.width == (if dir
                                == StackDirection::Horizontal {
                                so.sizes[m]
                            } else {
                                crossv
                            }) && t.height == (if dir == StackDirection::Horizontal {
                                crossv
                            } else {
                                so.sizes[m]
                            })
                            &&& self.scene@.position[x2] == Some(laid_pos(dir, so.offsets[m]))
                        } by {
                            assert(kept_children(self.scene@, x)[m] == kept_children(pre, x)[m]);
                        }
                    }
                    assert forall|y: int|
                        0 <= y < n && kept_children(pre, x).contains(y as u32)
                        implies v0.parent[y] == Some(x) by {
                        let kc = kept_children(pre, x);
                        let m = choose|m: int| 0 <= m < kc.len() && kc[m] == y as u32;
                        assert(kc[m] == kept_children(v0, x)[m]);
                    }
                    assert forall|c2: int|
                        0 <= c2 < n && stack_dirty0(v0, evs@, c2) && v0.parent[c2] is None
                        implies #[trigger] stacked_done(self.scene@, c2) by {
                        assert(stacked_done(iter0, c2));
                        assert(self.scene@.text_block[c2] == iter0.text_block[c2]) by {
                            if kept_children(pre, x).contains(c2 as u32) {
                                assert(v0.parent[c2] == Some(x));
                            }
                        }
                        assert forall|y: int|
                            0 <= y < n && v0.parent[y] == Some(c2 as u32)
                            implies self.scene@.text_block[y] == iter0.text_block[y]
                            && self.scene@.position[y] == iter0.position[y] by {
                            if kept_children(pre, x).contains(y as u32) {
                                assert(v0.parent[y] == Some(x));
                            }
                        }
                        lemma_done_stable(iter0, self.scene@, c2, n as int);
                    }
                    assert forall|j2: int|
                        0 <= j2 < k2 + 1 && stack_dirty0(v0, evs@, v0.order[j2] as int)
                        implies #[trigger] stacked_done(self.scene@, v0.order[j2] as int) by {
                        if j2 < k2 {
                            let c2 = v0.order[j2] as int;
                            assert(stacked_done(iter0, c2));
                            assert(v0.order[j2] != v0.order[k2 as int]);
                            assert(self.scene@.text_block[c2] == iter0.text_block[c2]) by {
                                if kept_children(pre, x).contains(c2 as u32) {
                                    assert(v0.parent[c2] == Some(x));
                                    assert(v0.parent[v0.order[j2] as int] is Some);
                                    let jp = choose|jp: int|
                                        0 <= jp < j2 && v0.order[jp] == v0.parent[v0.order[j2] as int].unwrap();
                                    assert(v0.order[jp] != v0.order[k2 as int]);
                                }
                            }
                            assert forall|y: int|
                                0 <= y < n && v0.parent[y] == Some(c2 as u32)
                                implies self.scene@.text_block[y] == iter0.text_block[y]
                                && self.scene@.position[y] == iter0.position[y] by {
                                if kept_children(pre, x).contains(y as u32) {
                                    assert(v0.parent[y] == Some(x));
                                }
                            }
                            lemma_done_stable(iter0, self.scene@, c2, n as int);
                        } else {
                            assert(v0.order[j2] == x);
                        }
                    }
                }
            }
            k2 += 1;
        }
        proof {
            assert forall|c: int|
                0 <= c < n && #[trigger] stack_dirty0(v0, evs@, c) implies stacked_done(
                self.scene@,
                c,
            ) by {
                if v0.parent[c] is Some {
                    assert(v0.order.contains((c as int) as u32));
                    let j2 = choose|j2: int| 0 <= j2 < v0.order.len() && v0.order[j2] == c as u32;
                    assert(stacked_done(self.scene@, v0.order[j2] as int));
                }
            }
        }
        Ok(())
    }
}

} // verus!
