//! A bounded-region quadtree spatial index addressed by Morton order.
//!
//! The grid covers a fixed rectangle split into `2^level x 2^level` cells at
//! the finest level. Each inserted box lands in the smallest tree node whose
//! square fully contains the box's two corner cells; the flat backing array
//! stores one bucket per node of the complete tree, breadth-first, a node at
//! depth `l` with Morton prefix `space` sitting at index `bias(l) + space`.
//!
//! Pair enumeration reports exactly the pairs of entries whose nodes lie on
//! one ancestor chain, and two overlapping boxes always land on one chain
//! ([`lemma_overlap_related`]), so no overlapping pair is missed.

use vstd::prelude::*;

verus! {

use vstd::arithmetic::power2::pow2;
use crate::morton::{
    bit_separate,
    morton_spec,
    lemma_morton_injective,
    lemma_morton_shift,
    lemma_morton_range,
    lemma_xor_high_zero,
    lemma_xor_bound,
    lemma_shr_between,
    lemma_shr_is_div_pow2,
};
use crate::num::clamp_spec;
use crate::components::COORD_LIMIT;

/// Powers of two as mathematical integers.
pub open spec fn pow2i(l: int) -> int
    decreases l,
{
    if l <= 0 {
        1
    } else {
        2 * pow2i(l - 1)
    }
}

/// Powers of four: the number of nodes on one level of a quadtree.
pub open spec fn pow4i(l: int) -> int
    decreases l,
{
    if l <= 0 {
        1
    } else {
        4 * pow4i(l - 1)
    }
}

/// Nodes on all levels shallower than `l`: the offset of level `l` in the
/// flat array.
pub open spec fn bias_spec(l: int) -> int
    decreases l,
{
    if l <= 0 {
        0
    } else {
        bias_spec(l - 1) + pow4i(l - 1)
    }
}

/// The node counts of every admitted level, up to the `4^8` leaves of the
/// deepest grid.
pub proof fn lemma_pow4i_values()
    ensures
        pow4i(7) == 16384,
        pow4i(8) == 65536,
        bias_spec(8) == 21845,
        bias_spec(9) == 87381,
{
    reveal_with_fuel(pow4i, 10);
    reveal_with_fuel(bias_spec, 10);
}

pub proof fn lemma_pow4i_pos(l: int)
    ensures
        pow4i(l) >= 1,
    decreases l,
{
    if l > 0 {
        lemma_pow4i_pos(l - 1);
    }
}

pub proof fn lemma_pow2i_pos(l: int)
    ensures
        pow2i(l) >= 1,
    decreases l,
{
    if l > 0 {
        lemma_pow2i_pos(l - 1);
    }
}

/// `pow4i` agrees with `pow2` on the doubled exponent.
pub proof fn lemma_pow4i_is_pow2(l: int)
    requires
        l >= 0,
    ensures
        pow4i(l) == pow2((2 * l) as nat),
    decreases l,
{
    vstd::arithmetic::power2::lemma2_to64();
    if l > 0 {
        lemma_pow4i_is_pow2(l - 1);
        vstd::arithmetic::power2::lemma_pow2_adds((2 * (l - 1)) as nat, 2);
    }
}

/// `pow2i` agrees with vstd's `pow2`.
pub proof fn lemma_pow2i_is_pow2(l: int)
    requires
        l >= 0,
    ensures
        pow2i(l) == pow2(l as nat),
    decreases l,
{
    vstd::arithmetic::power2::lemma2_to64();
    if l > 0 {
        lemma_pow2i_is_pow2(l - 1);
        vstd::arithmetic::power2::lemma_pow2_adds((l - 1) as nat, 1);
    }
}

pub proof fn lemma_pow4i_mono(a: int, b: int)
    requires
        a <= b,
    ensures
        pow4i(a) <= pow4i(b),
    decreases b - a,
{
    if a < b {
        lemma_pow4i_mono(a, b - 1);
        lemma_pow4i_pos(b - 1);
    }
}

/// Levels multiply: the grandchildren of a node at distance `a + b` group by
/// `pow4i(a) * pow4i(b)`.
pub proof fn lemma_pow4i_adds(a: int, b: int)
    requires
        a >= 0,
        b >= 0,
    ensures
        pow4i(a + b) == pow4i(a) * pow4i(b),
    decreases a,
{
    if a == 0 {
    } else {
        lemma_pow4i_adds(a - 1, b);
        assert(4 * (pow4i(a - 1) * pow4i(b)) == (4 * pow4i(a - 1)) * pow4i(b))
            by (nonlinear_arith);
    }
}

pub proof fn lemma_bias_mono(a: int, b: int)
    requires
        a <= b,
    ensures
        bias_spec(a) <= bias_spec(b),
    decreases b - a,
{
    if a < b {
        lemma_bias_mono(a, b - 1);
        lemma_pow4i_pos(b - 1);
    }
}

pub proof fn lemma_bias_nonneg(l: int)
    ensures
        bias_spec(l) >= 0,
{
    lemma_bias_mono(0, if l >= 0 { l } else { 0 });
}

/// Three times the bias is one less than the level's node count:
/// `bias(l) == (4^l - 1) / 3`.
pub proof fn lemma_bias_formula(l: int)
    requires
        l >= 0,
    ensures
        3 * bias_spec(l) == pow4i(l) - 1,
    decreases l,
{
    if l > 0 {
        lemma_bias_formula(l - 1);
    }
}

/// One entry of the spatial index: a payload and the node (depth and Morton
/// prefix) the box landed in.
#[derive(Clone, Copy, PartialEq, Eq, Structural, Debug)]
pub struct QtEntry {
    pub item: u64,
    pub level: usize,
    pub space: usize,
}

/// Node `a` is `d`'s ancestor, or the same node: `d`'s Morton prefix cut to
/// `a`'s depth is `a`'s.
pub open spec fn covers(a: QtEntry, d: QtEntry) -> bool {
    &&& a.level <= d.level
    &&& d.space as int / pow4i(d.level - a.level) == a.space as int
}

/// The two entries' nodes lie on one ancestor chain, so pair enumeration
/// visits them together.
pub open spec fn related(a: QtEntry, b: QtEntry) -> bool {
    covers(a, b) || covers(b, a)
}

/// A bounded-region quadtree: a flat array of buckets of entry indices, one
/// bucket per node, plus the inserted entries in insertion order.
pub struct QuadTreeGrid {
    level: usize,
    x: i64,
    y: i64,
    width: i64,
    height: i64,
    tree: Vec<Vec<usize>>,
    entries: Vec<QtEntry>,
}

/// The indices (in insertion order) of the entries of `s` that sit at node
/// `b` of the flat array.
pub open spec fn bucket_model(s: Seq<QtEntry>, b: int) -> Seq<usize>
    decreases s.len(),
{
    if s.len() == 0 {
        Seq::empty()
    } else {
        let pre = bucket_model(s.drop_last(), b);
        if bias_spec(s.last().level as int) + s.last().space as int == b {
            pre.push((s.len() - 1) as usize)
        } else {
            pre
        }
    }
}

impl View for QuadTreeGrid {
    type V = Seq<QtEntry>;

    closed spec fn view(&self) -> Seq<QtEntry> {
        self.entries@
    }
}

/// The grid's fixed shape: depth, origin and extent, as one ghost tuple.
pub open spec fn shape_of(level: int, x: int, y: int, width: int, height: int) -> (
    int,
    int,
    int,
    int,
    int,
) {
    (level, x, y, width, height)
}

/// The finest-level cell that position `p` falls in along one axis of length
/// `extent` divided into `gs` cells starting at `origin`, out-of-range
/// positions clamped to the border cells.
pub open spec fn cell_of(origin: int, extent: int, gs: int, p: int) -> int {
    let raw = if p < origin {
        0
    } else {
        (p - origin) * gs / extent
    };
    clamp_spec(raw, 0, gs - 1)
}

/// Where a box lands in a grid of the given shape: the deepest node whose
/// aligned square contains both corner cells, as `(depth, Morton prefix)`.
/// The box runs from `(bx, by)` to `(bx + bw, by + bh)`.
pub closed spec fn node_of(shape: (int, int, int, int, int), bx: int, by: int, bw: int, bh: int) -> (
    int,
    int,
) {
    let (level, x, y, width, height) = shape;
    let gs = pow2i(level);
    let cx1 = cell_of(x, width, gs, bx);
    let cy1 = cell_of(y, height, gs, by);
    let cx2 = cell_of(x, width, gs, bx + bw);
    let cy2 = cell_of(y, height, gs, by + bh);
    let m1 = morton_spec(cx1 as usize, cy1 as usize) as int;
    let m2 = morton_spec(cx2 as usize, cy2 as usize) as int;
    let l = drop_level(m1_xor_m2(cx1, cy1, cx2, cy2), level);
    (l, m2 / pow4i(level - l))
}

/// The xor of the two corner Morton codes, whose highest set bit pair tells
/// how deep the corners share a node.
pub open spec fn m1_xor_m2(cx1: int, cy1: int, cx2: int, cy2: int) -> int {
    (morton_spec(cx1 as usize, cy1 as usize) ^ morton_spec(cx2 as usize, cy2 as usize)) as int
}

/// Walks up from `l` one level per set bit pair of `x`: the depth at which
/// `x`'s remaining bits vanish.
pub open spec fn drop_level(x: int, l: int) -> int
    decreases x,
{
    if x <= 0 {
        l
    } else {
        drop_level(x / 4, l - 1)
    }
}

/// An entry fits a grid of depth `level`: its node exists in the tree.
pub open spec fn entry_wf(e: QtEntry, level: int) -> bool {
    &&& e.level <= level
    &&& (e.space as int) < pow4i(e.level as int)
}

/// The flat-array index of an entry's node.
pub open spec fn flat_of(e: QtEntry) -> int {
    bias_spec(e.level as int) + e.space as int
}

/// The entry sits exactly at node `(l, sp)`.
pub open spec fn at_node(l: int, sp: int, e: QtEntry) -> bool {
    e.level as int == l && e.space as int == sp
}

/// The entry's node lies in (or is) the subtree rooted at `(l, sp)`.
pub open spec fn in_subtree(l: int, sp: int, e: QtEntry) -> bool {
    l <= e.level as int && e.space as int / pow4i(e.level - l) == sp
}

/// The entry's node is a strict ancestor of `(l, sp)`.
pub open spec fn on_chain(l: int, sp: int, e: QtEntry) -> bool {
    (e.level as int) < l && sp / pow4i(l - e.level as int) == e.space as int
}

/// The pair `(i, j)` is due at the node `(l, sp)` of the enumeration: its
/// entries' nodes lie on one ancestor chain, and the deeper of the two sits
/// in this node's subtree while the other sits there too or above this node.
pub open spec fn scope_pair(s: Seq<QtEntry>, l: int, sp: int, i: int, j: int) -> bool {
    &&& 0 <= i < j < s.len()
    &&& related(s[i], s[j])
    &&& ((in_subtree(l, sp, s[i]) && (in_subtree(l, sp, s[j]) || on_chain(l, sp, s[j]))) || (
    in_subtree(l, sp, s[j]) && on_chain(l, sp, s[i])))
}

/// The entry indices an enumeration walking down to node `(l, sp)` has
/// accumulated: the buckets of all strict ancestors, shallowest first.
pub open spec fn stack_model(s: Seq<QtEntry>, l: int, sp: int) -> Seq<usize>
    decreases l,
{
    if l <= 0 {
        Seq::empty()
    } else {
        stack_model(s, l - 1, sp / 4) + bucket_model(s, bias_spec(l - 1) + sp / 4)
    }
}

/// What one enumeration step below node `(l, sp)` may add to the output:
/// every pair due at the node, exactly once, in increasing index order
/// within the pair.
pub open spec fn delta_ok(s: Seq<QtEntry>, l: int, sp: int, delta: Seq<(usize, usize)>) -> bool {
    &&& forall|k: int|
        0 <= k < delta.len() ==> scope_pair(
            s,
            l,
            sp,
            (#[trigger] delta[k]).0 as int,
            delta[k].1 as int,
        )
    &&& forall|k1: int, k2: int| 0 <= k1 < k2 < delta.len() ==> delta[k1] != delta[k2]
    &&& forall|i: int, j: int|
        #[trigger] scope_pair(s, l, sp, i, j) ==> delta.contains((i as usize, j as usize))
}

/// Every element of a bucket is the index of an entry sitting at that
/// bucket's node.
pub proof fn lemma_bucket_elems(s: Seq<QtEntry>, b: int)
    requires
        s.len() <= usize::MAX,
    ensures
        forall|p: int|
            0 <= p < bucket_model(s, b).len() ==> (#[trigger] bucket_model(s, b)[p]) < s.len()
                && flat_of(s[bucket_model(s, b)[p] as int]) == b,
    decreases s.len(),
{
    if s.len() > 0 {
        lemma_bucket_elems(s.drop_last(), b);
        let m = bucket_model(s, b);
        let pre = bucket_model(s.drop_last(), b);
        assert forall|p: int| 0 <= p < m.len() implies (#[trigger] m[p]) < s.len() && flat_of(
            s[m[p] as int],
        ) == b by {
            if p < pre.len() {
                assert(m[p] == pre[p]);
                assert(s.drop_last()[pre[p] as int] == s[pre[p] as int]);
            } else {
                assert(m[p] == (s.len() - 1) as usize);
                assert(s.last() == s[s.len() - 1]);
            }
        }
    }
}

/// A bucket lists its entries in increasing insertion order.
pub proof fn lemma_bucket_increasing(s: Seq<QtEntry>, b: int)
    requires
        s.len() <= usize::MAX,
    ensures
        forall|p1: int, p2: int|
            0 <= p1 < p2 < bucket_model(s, b).len() ==> #[trigger] bucket_model(s, b)[p1]
                < #[trigger] bucket_model(s, b)[p2],
    decreases s.len(),
{
    lemma_bucket_elems(s, b);
    if s.len() > 0 {
        lemma_bucket_increasing(s.drop_last(), b);
        lemma_bucket_elems(s.drop_last(), b);
        let m = bucket_model(s, b);
        let pre = bucket_model(s.drop_last(), b);
        assert forall|p1: int, p2: int| 0 <= p1 < p2 < m.len() implies #[trigger] m[p1]
            < #[trigger] m[p2] by {
            if p2 < pre.len() {
                assert(m[p1] == pre[p1] && m[p2] == pre[p2]);
            } else {
                assert(m[p1] == pre[p1]);
                assert(pre[p1] < s.drop_last().len());
                assert(m[p2] == (s.len() - 1) as usize);
            }
        }
    }
}

/// Every entry at a bucket's node is listed in that bucket.
pub proof fn lemma_bucket_complete(s: Seq<QtEntry>, b: int, k: int)
    requires
        s.len() <= usize::MAX,
        0 <= k < s.len(),
        flat_of(s[k]) == b,
    ensures
        bucket_model(s, b).contains(k as usize),
    decreases s.len(),
{
    if k == s.len() - 1 {
        assert(s.last() == s[k]);
        let m = bucket_model(s, b);
        assert(m[m.len() - 1] == k as usize);
    } else {
        lemma_bucket_complete(s.drop_last(), b, k);
        let pre = bucket_model(s.drop_last(), b);
        let p = choose|p: int| 0 <= p < pre.len() && pre[p] == k as usize;
        assert(bucket_model(s, b)[p] == k as usize);
    }
}

/// Distinct node coordinates give distinct flat indices.
pub proof fn lemma_flat_unique(e1: QtEntry, e2: QtEntry)
    requires
        (e1.space as int) < pow4i(e1.level as int),
        (e2.space as int) < pow4i(e2.level as int),
        flat_of(e1) == flat_of(e2),
    ensures
        e1.level == e2.level,
        e1.space == e2.space,
{
    if e1.level < e2.level {
        lemma_bias_mono(e1.level as int + 1, e2.level as int);
        assert(bias_spec(e1.level as int + 1) == bias_spec(e1.level as int) + pow4i(
            e1.level as int,
        ));
    } else if e2.level < e1.level {
        lemma_bias_mono(e2.level as int + 1, e1.level as int);
        assert(bias_spec(e2.level as int + 1) == bias_spec(e2.level as int) + pow4i(
            e2.level as int,
        ));
    }
}

/// Nested division: cutting a Morton prefix in two steps is one longer cut.
pub proof fn lemma_prefix_twice(x: int, a: int, b: int)
    requires
        x >= 0,
        a >= 0,
        b >= 0,
    ensures
        (x / pow4i(a)) / pow4i(b) == x / pow4i(a + b),
{
    lemma_pow4i_pos(a);
    lemma_pow4i_pos(b);
    lemma_pow4i_adds(a, b);
    vstd::arithmetic::div_mod::lemma_div_denominator(x, pow4i(a), pow4i(b));
}

/// Every entry's Morton prefix is in range for its depth.
pub open spec fn entries_ok(s: Seq<QtEntry>) -> bool {
    forall|k: int| 0 <= k < s.len() ==> ((#[trigger] s[k]).space as int) < pow4i(s[k].level as int)
}

/// Every element of the enumeration stack is the index of an entry on the
/// node's ancestor chain.
pub proof fn lemma_stack_elems(s: Seq<QtEntry>, l: int, sp: int)
    requires
        s.len() <= usize::MAX,
        entries_ok(s),
        0 <= l <= 8,
        0 <= sp < pow4i(l),
    ensures
        forall|p: int|
            0 <= p < stack_model(s, l, sp).len() ==> (#[trigger] stack_model(s, l, sp)[p])
                < s.len() && on_chain(l, sp, s[stack_model(s, l, sp)[p] as int]),
    decreases l,
{
    if l > 0 {
        proof_parent_space(l, sp);
        lemma_stack_elems(s, l - 1, sp / 4);
        lemma_bucket_elems(s, bias_spec(l - 1) + sp / 4);
        let st = stack_model(s, l, sp);
        let pre = stack_model(s, l - 1, sp / 4);
        let bk = bucket_model(s, bias_spec(l - 1) + sp / 4);
        assert forall|p: int| 0 <= p < st.len() implies (#[trigger] st[p]) < s.len() && on_chain(
            l,
            sp,
            s[st[p] as int],
        ) by {
            reveal_with_fuel(pow4i, 3);
            if p < pre.len() {
                assert(st[p] == pre[p]);
                let e = s[pre[p] as int];
                assert(on_chain(l - 1, sp / 4, e));
                lemma_prefix_twice(sp, 1, l - 1 - e.level as int);
            } else {
                assert(st[p] == bk[p - pre.len()]);
                let e = s[bk[p - pre.len()] as int];
                assert(flat_of(e) == bias_spec(l - 1) + sp / 4);
                lemma_pow4i_values();
                lemma_pow4i_mono(l - 1, 8);
                lemma_flat_unique(
                    e,
                    QtEntry { item: e.item, level: (l - 1) as usize, space: (sp / 4) as usize },
                );
            }
        }
    }
}

/// A node's parent prefix is in range one level up.
pub proof fn proof_parent_space(l: int, sp: int)
    requires
        l >= 1,
        0 <= sp < pow4i(l),
    ensures
        0 <= sp / 4 < pow4i(l - 1),
{
    vstd::arithmetic::div_mod::lemma_div_pos_is_pos(sp, 4);
    vstd::arithmetic::div_mod::lemma_multiply_divide_lt(sp, 4, pow4i(l - 1));
}

/// Every entry on a node's ancestor chain is listed in the enumeration
/// stack.
pub proof fn lemma_stack_complete(s: Seq<QtEntry>, l: int, sp: int, k: int)
    requires
        s.len() <= usize::MAX,
        entries_ok(s),
        0 <= l <= 8,
        0 <= sp < pow4i(l),
        0 <= k < s.len(),
        on_chain(l, sp, s[k]),
    ensures
        stack_model(s, l, sp).contains(k as usize),
    decreases l,
{
    reveal_with_fuel(pow4i, 3);
    let e = s[k];
    let pre = stack_model(s, l - 1, sp / 4);
    let bk = bucket_model(s, bias_spec(l - 1) + sp / 4);
    proof_parent_space(l, sp);
    if e.level as int == l - 1 {
        assert(sp / pow4i(1) == sp / 4);
        lemma_bucket_complete(s, bias_spec(l - 1) + sp / 4, k);
        let p = choose|p: int| 0 <= p < bk.len() && bk[p] == k as usize;
        assert(stack_model(s, l, sp)[pre.len() + p] == k as usize);
    } else {
        lemma_prefix_twice(sp, 1, l - 1 - e.level as int);
        assert(pow4i(1) == 4);
        assert(on_chain(l - 1, sp / 4, e));
        lemma_stack_complete(s, l - 1, sp / 4, k);
        let p = choose|p: int| 0 <= p < pre.len() && pre[p] == k as usize;
        assert(stack_model(s, l, sp)[p] == k as usize);
    }
}

/// The enumeration stack lists each chain entry once.
pub proof fn lemma_stack_nodup(s: Seq<QtEntry>, l: int, sp: int)
    requires
        s.len() <= usize::MAX,
        entries_ok(s),
        0 <= l <= 8,
        0 <= sp < pow4i(l),
    ensures
        forall|p1: int, p2: int|
            0 <= p1 < p2 < stack_model(s, l, sp).len() ==> #[trigger] stack_model(s, l, sp)[p1]
                != #[trigger] stack_model(s, l, sp)[p2],
    decreases l,
{
    if l > 0 {
        proof_parent_space(l, sp);
        lemma_stack_nodup(s, l - 1, sp / 4);
        lemma_stack_elems(s, l - 1, sp / 4);
        lemma_bucket_elems(s, bias_spec(l - 1) + sp / 4);
        lemma_bucket_increasing(s, bias_spec(l - 1) + sp / 4);
        let st = stack_model(s, l, sp);
        let pre = stack_model(s, l - 1, sp / 4);
        let bk = bucket_model(s, bias_spec(l - 1) + sp / 4);
        assert forall|p1: int, p2: int| 0 <= p1 < p2 < st.len() implies #[trigger] st[p1]
            != #[trigger] st[p2] by {
            if p1 < pre.len() && p2 >= pre.len() {
                assert(st[p1] == pre[p1] && st[p2] == bk[p2 - pre.len()]);
                let e1 = s[pre[p1] as int];
                let e2 = s[bk[p2 - pre.len()] as int];
                assert((e1.level as int) < l - 1);
                lemma_pow4i_values();
                lemma_pow4i_mono(l - 1, 8);
                lemma_flat_unique(
                    e2,
                    QtEntry { item: e2.item, level: (l - 1) as usize, space: (sp / 4) as usize },
                );
            } else if p2 < pre.len() {
                assert(st[p1] == pre[p1] && st[p2] == pre[p2]);
            } else {
                assert(st[p1] == bk[p1 - pre.len()] && st[p2] == bk[p2 - pre.len()]);
            }
        }
    }
}

/// Two entries at one node cover each other.
pub proof fn lemma_node_covers(e1: QtEntry, e2: QtEntry)
    requires
        e1.level == e2.level,
        e1.space == e2.space,
    ensures
        covers(e1, e2),
{
    assert(pow4i(0) == 1);
}

/// A chain entry of a node covers every entry at that node.
pub proof fn lemma_chain_covers(l: int, sp: int, q: QtEntry, e: QtEntry)
    requires
        on_chain(l, sp, q),
        at_node(l, sp, e),
    ensures
        covers(q, e),
{
}

/// The child prefix under `(l, ...)` that a deeper entry's node goes
/// through.
pub open spec fn child_space(l: int, e: QtEntry) -> int {
    e.space as int / pow4i(e.level - l - 1)
}

/// A strictly deeper entry of a subtree lies in exactly one of the node's
/// four children.
pub proof fn lemma_subtree_child(l: int, sp: int, e: QtEntry)
    requires
        in_subtree(l, sp, e),
        0 <= l,
        (e.level as int) > l,
        (e.space as int) < pow4i(e.level as int),
        0 <= sp < pow4i(l),
    ensures
        in_subtree(l + 1, child_space(l, e), e),
        child_space(l, e) / 4 == sp,
        4 * sp <= child_space(l, e) < 4 * sp + 4,
        child_space(l, e) < pow4i(l + 1),
    decreases l,
{
    reveal_with_fuel(pow4i, 3);
    let c = child_space(l, e);
    lemma_prefix_twice(e.space as int, e.level - l - 1, 1);
    assert(pow4i(1) == 4);
    assert(c / 4 == sp);
    lemma_pow4i_pos(e.level - l - 1);
    vstd::arithmetic::div_mod::lemma_div_pos_is_pos(e.space as int, pow4i(e.level - l - 1));
    vstd::arithmetic::div_mod::lemma_fundamental_div_mod(c, 4);
    vstd::arithmetic::div_mod::lemma_mod_division_less_than_divisor(c, 4);
    assert(c == 4 * sp + c % 4);
    assert(c < 4 * sp + 4);
    assert(pow4i(l + 1) == 4 * pow4i(l));
    assert(c < pow4i(l + 1));
}

/// An ancestor's child square contains every covered descendant.
pub proof fn lemma_covers_same_child(l: int, a: QtEntry, b: QtEntry)
    requires
        covers(a, b),
        (a.level as int) > l,
    ensures
        child_space(l, a) == child_space(l, b),
{
    lemma_prefix_twice(b.space as int, b.level - a.level, a.level - l - 1);
    lemma_pow4i_pos(b.level - a.level);
    lemma_pow4i_pos(a.level - l - 1);
}

/// A pair due at a child node is due at the node itself.
pub proof fn lemma_scope_child_parent(s: Seq<QtEntry>, l: int, sp: int, c: int, i: int, j: int)
    requires
        scope_pair(s, l + 1, c, i, j),
        0 <= sp,
        c / 4 == sp,
        0 <= c,
    ensures
        scope_pair(s, l, sp, i, j),
{
    reveal_with_fuel(pow4i, 3);
    let ei = s[i];
    let ej = s[j];
    assert forall|e: QtEntry|
        in_subtree(l + 1, c, e) || on_chain(l + 1, c, e) implies (in_subtree(l, sp, e) || on_chain(
        l,
        sp,
        e,
    )) by {
        reveal_with_fuel(pow4i, 3);
        if in_subtree(l + 1, c, e) {
            lemma_prefix_twice(e.space as int, e.level - l - 1, 1);
            assert(pow4i(1) == 4);
            assert(in_subtree(l, sp, e));
        } else {
            if e.level as int == l {
                assert(on_chain(l + 1, c, e));
                assert(pow4i(1) == 4);
                assert(c / pow4i(l + 1 - e.level as int) == e.space as int);
                assert(l + 1 - e.level as int == 1);
                assert(e.space as int == c / 4);
                assert(pow4i(0) == 1);
                assert(e.space as int / 1 == e.space as int);
                assert(in_subtree(l, sp, e));
            } else {
                lemma_prefix_twice(c, 1, l - e.level as int);
                assert(on_chain(l, sp, e));
            }
        }
    }
    assert forall|e: QtEntry| in_subtree(l + 1, c, e) implies in_subtree(l, sp, e) by {
        reveal_with_fuel(pow4i, 3);
        lemma_prefix_twice(e.space as int, e.level - l - 1, 1);
        assert(pow4i(1) == 4);
    }
}

/// How a pair due at a node splits: between the node's own bucket and its
/// chain, or through exactly one child.
pub proof fn lemma_scope_split(s: Seq<QtEntry>, l: int, sp: int, i: int, j: int)
    requires
        entries_ok(s),
        0 <= sp < pow4i(l),
        0 <= l,
        scope_pair(s, l, sp, i, j),
    ensures
        (s[i].level as int <= l && s[j].level as int <= l) ==> ((at_node(l, sp, s[i]) && at_node(
            l,
            sp,
            s[j],
        )) || (at_node(l, sp, s[i]) && on_chain(l, sp, s[j])) || (at_node(l, sp, s[j]) && on_chain(
            l,
            sp,
            s[i],
        ))),
        (s[i].level as int > l || s[j].level as int > l) ==> {
            let c = if s[i].level >= s[j].level {
                child_space(l, s[i])
            } else {
                child_space(l, s[j])
            };
            &&& 4 * sp <= c < 4 * sp + 4
            &&& c / 4 == sp
            &&& c < pow4i(l + 1)
            &&& scope_pair(s, l + 1, c, i, j)
        },
{
    reveal_with_fuel(pow4i, 3);
    let ei = s[i];
    let ej = s[j];
    if ei.level as int <= l && ej.level as int <= l {
        assert forall|e: QtEntry|
            (in_subtree(l, sp, e) && e.level as int <= l) implies at_node(l, sp, e) by {
            assert(pow4i(0) == 1);
            assert(e.space as int / 1 == e.space as int);
        }
    } else {
        let (ed, eo) = if ei.level >= ej.level {
            (ei, ej)
        } else {
            (ej, ei)
        };
        let c = child_space(l, ed);
        assert(in_subtree(l, sp, ed));
        lemma_subtree_child(l, sp, ed);
        if eo.level as int > l {
            assert(in_subtree(l, sp, eo));
            if covers(eo, ed) {
                lemma_covers_same_child(l, eo, ed);
                lemma_subtree_child(l, sp, eo);
            } else {
                assert(covers(ed, eo));
                assert(ed.level == eo.level || ed.level < eo.level);
                if ed.level == eo.level {
                    assert(pow4i(0) == 1);
                    assert(eo.space as int / 1 == eo.space as int);
                    assert(eo.space == ed.space);
                    lemma_subtree_child(l, sp, eo);
                    lemma_covers_same_child(l, ed, eo);
                }
            }
            assert(in_subtree(l + 1, c, eo));
        } else if eo.level as int == l {
            assert(in_subtree(l, sp, eo));
            assert(eo.space as int == sp);
            assert(c / pow4i(1) == c / 4);
            assert(on_chain(l + 1, c, eo));
        } else {
            assert(on_chain(l, sp, eo));
            lemma_prefix_twice(c, 1, l - eo.level as int);
            assert(on_chain(l + 1, c, eo));
        }
    }
}

/// Two scopes at one depth that share a pair are the same scope.
pub proof fn lemma_scope_same_child(s: Seq<QtEntry>, lc: int, c1: int, c2: int, i: int, j: int)
    requires
        scope_pair(s, lc, c1, i, j),
        scope_pair(s, lc, c2, i, j),
    ensures
        c1 == c2,
{
    let ei = s[i];
    let ej = s[j];
    if in_subtree(lc, c1, ei) {
        assert(in_subtree(lc, c2, ei) || on_chain(lc, c2, ei));
        if on_chain(lc, c2, ei) {
            assert(in_subtree(lc, c2, ej));
            assert(in_subtree(lc, c1, ej) || on_chain(lc, c1, ej));
        }
    } else {
        assert(in_subtree(lc, c1, ej));
        assert(in_subtree(lc, c2, ej) || on_chain(lc, c2, ej));
    }
}

/// A well-formed grid's entries all sit at nodes of the tree.
pub proof fn lemma_entries_ok(g: &QuadTreeGrid)
    requires
        g.wf(),
    ensures
        entries_ok(g@),
        g@.len() <= usize::MAX,
        0 <= g.shape().0 <= 8,
        forall|k: int|
            0 <= k < g@.len() ==> ((#[trigger] g@[k]).level as int) <= g.shape().0,
{
    vstd::std_specs::vec::axiom_spec_len(&g.entries);
    assert forall|k: int| 0 <= k < g@.len() implies ((#[trigger] g@[k]).space as int) < pow4i(
        g@[k].level as int,
    ) && (g@[k].level as int) <= g.shape().0 by {
        assert(entry_wf(g.entries@[k], g.level as int));
    }
}

/// An entry whose flat node index is `bias(l) + sp` sits exactly at node
/// `(l, sp)`.
pub proof fn lemma_at_node_of_flat(e: QtEntry, l: int, sp: int)
    requires
        (e.space as int) < pow4i(e.level as int),
        0 <= l <= 8,
        0 <= sp < pow4i(l),
        flat_of(e) == bias_spec(l) + sp,
    ensures
        at_node(l, sp, e),
{
    lemma_pow4i_values();
    lemma_pow4i_mono(l, 8);
    lemma_flat_unique(e, QtEntry { item: e.item, level: l as usize, space: sp as usize });
}

/// The pair `(a, c)` with the smaller index first.
pub open spec fn sorted_pair_spec(a: usize, c: usize) -> (usize, usize) {
    if a < c {
        (a, c)
    } else {
        (c, a)
    }
}

/// The pair was found inside one of the first `d` children of node
/// `(l, sp)`.
pub open spec fn child_scoped(
    s: Seq<QtEntry>,
    l: int,
    sp: int,
    d: int,
    pr: (usize, usize),
) -> bool {
    exists|dd: int|
        0 <= dd < d && #[trigger] scope_pair(s, l + 1, 4 * sp + dd, pr.0 as int, pr.1 as int)
}

/// There is a reported pair equal to `pr` at or after position `base`.
pub open spec fn delta_has(pairs: Seq<(usize, usize)>, base: int, pr: (usize, usize)) -> bool {
    exists|k: int| base <= k < pairs.len() && pairs[k] == pr
}

/// Both entries of the pair sit at node `(l, sp)` itself.
pub open spec fn bb_type(s: Seq<QtEntry>, l: int, sp: int, pr: (usize, usize)) -> bool {
    &&& (pr.0 as int) < s.len()
    &&& (pr.1 as int) < s.len()
    &&& at_node(l, sp, s[pr.0 as int])
    &&& at_node(l, sp, s[pr.1 as int])
}

/// One entry of the pair sits at node `(l, sp)`, the other on its chain.
pub open spec fn bs_type(s: Seq<QtEntry>, l: int, sp: int, pr: (usize, usize)) -> bool {
    &&& (pr.0 as int) < s.len()
    &&& (pr.1 as int) < s.len()
    &&& ((at_node(l, sp, s[pr.0 as int]) && on_chain(l, sp, s[pr.1 as int])) || (at_node(
        l,
        sp,
        s[pr.1 as int],
    ) && on_chain(l, sp, s[pr.0 as int])))
}

/// A pair reported while working the bucket of node `(l, sp)`: in scope, in
/// index order, and of one of the two bucket-phase kinds.
pub open spec fn a_pair_ok(s: Seq<QtEntry>, l: int, sp: int, pr: (usize, usize)) -> bool {
    &&& scope_pair(s, l, sp, pr.0 as int, pr.1 as int)
    &&& (bb_type(s, l, sp, pr) || bs_type(s, l, sp, pr))
}

/// What the bucket phase has not reported yet, seen from the start of
/// bucket row `ai`: no pair of two bucket entries from row `ai` on, and no
/// bucket-stack pair whose bucket side is from row `ai` on.
pub open spec fn a_bound_outer(
    s: Seq<QtEntry>,
    l: int,
    sp: int,
    bkt: Seq<usize>,
    st0: Seq<usize>,
    ai: int,
    pr: (usize, usize),
) -> bool {
    &&& (bb_type(s, l, sp, pr) ==> forall|p1: int, p2: int|
        ai <= p1 < p2 < bkt.len() ==> pr != (#[trigger] bkt[p1], #[trigger] bkt[p2]))
    &&& (bs_type(s, l, sp, pr) ==> forall|p1: int, q: int|
        ai <= p1 < bkt.len() && 0 <= q < st0.len() ==> pr != sorted_pair_spec(
            #[trigger] bkt[p1],
            #[trigger] st0[q],
        ))
}

/// The same frontier inside row `ai`, with the row's bucket pairs done up
/// to `bi`.
pub open spec fn a_bound_bi(
    s: Seq<QtEntry>,
    l: int,
    sp: int,
    bkt: Seq<usize>,
    st0: Seq<usize>,
    ai: int,
    bi: int,
    pr: (usize, usize),
) -> bool {
    &&& (bb_type(s, l, sp, pr) ==> (forall|p2: int|
        bi <= p2 < bkt.len() ==> pr != (bkt[ai], #[trigger] bkt[p2])) && (forall|p1: int, p2: int|
        ai < p1 < p2 < bkt.len() ==> pr != (#[trigger] bkt[p1], #[trigger] bkt[p2])))
    &&& (bs_type(s, l, sp, pr) ==> forall|p1: int, q: int|
        ai <= p1 < bkt.len() && 0 <= q < st0.len() ==> pr != sorted_pair_spec(
            #[trigger] bkt[p1],
            #[trigger] st0[q],
        ))
}

/// The same frontier inside row `ai`, with the row's stack pairs done up to
/// `qi`.
pub open spec fn a_bound_qi(
    s: Seq<QtEntry>,
    l: int,
    sp: int,
    bkt: Seq<usize>,
    st0: Seq<usize>,
    ai: int,
    qi: int,
    pr: (usize, usize),
) -> bool {
    &&& (bb_type(s, l, sp, pr) ==> forall|p1: int, p2: int|
        ai < p1 < p2 < bkt.len() ==> pr != (#[trigger] bkt[p1], #[trigger] bkt[p2]))
    &&& (bs_type(s, l, sp, pr) ==> (forall|q: int|
        qi <= q < st0.len() ==> pr != sorted_pair_spec(bkt[ai], #[trigger] st0[q])) && (forall|
        p1: int,
        q: int,
    |
        ai < p1 < bkt.len() && 0 <= q < st0.len() ==> pr != sorted_pair_spec(
            #[trigger] bkt[p1],
            #[trigger] st0[q],
        )))
}

/// At the root every related pair is in scope, and every scoped pair is
/// related.
pub proof fn lemma_scope_root(s: Seq<QtEntry>, i: int, j: int)
    requires
        entries_ok(s),
        0 <= i < j < s.len(),
    ensures
        scope_pair(s, 0, 0, i, j) <==> related(s[i], s[j]),
{
    assert forall|e: QtEntry| (e.space as int) < pow4i(e.level as int) implies in_subtree(
        0,
        0,
        e,
    ) by {
        vstd::arithmetic::div_mod::lemma_basic_div(e.space as int, pow4i(e.level as int));
    }
    assert((s[i].space as int) < pow4i(s[i].level as int));
    assert((s[j].space as int) < pow4i(s[j].level as int));
}

fn pow4_exec(l: usize) -> (r: usize)
    requires
        l <= 8,
    ensures
        r as int == pow4i(l as int),
{
    let mut p: usize = 1;
    let mut i: usize = 0;
    while i < l
        invariant
            i <= l <= 8,
            p as int == pow4i(i as int),
        decreases l - i,
    {
        proof {
            lemma_pow4i_mono(i as int + 1, 8);
            lemma_pow4i_values();
        }
        p = p * 4;
        i = i + 1;
    }
    p
}

fn bias_exec(l: usize) -> (r: usize)
    requires
        l <= 8,
    ensures
        r as int == bias_spec(l as int),
{
    let p = pow4_exec(l);
    proof {
        lemma_bias_formula(l as int);
        lemma_bias_nonneg(l as int);
        vstd::arithmetic::div_mod::lemma_div_multiples_vanish(bias_spec(l as int), 3);
    }
    (p - 1) / 3
}

/// The finest-level cell of a position along one axis, clamped to the grid.
fn cell_exec(origin: i64, extent: i64, gs: usize, p: i64) -> (c: usize)
    requires
        -COORD_LIMIT <= origin <= COORD_LIMIT,
        0 < extent <= COORD_LIMIT,
        1 <= gs <= 256,
        -3 * COORD_LIMIT <= p <= 3 * COORD_LIMIT,
    ensures
        c as int == cell_of(origin as int, extent as int, gs as int, p as int),
        c < gs,
{
    if p < origin {
        0
    } else {
        let d = (p - origin) as u64;
        proof {
            assert(d as int * gs as int <= 4 * COORD_LIMIT * 256) by (nonlinear_arith)
                requires
                    0 <= d as int <= 4 * COORD_LIMIT,
                    1 <= gs as int <= 256,
            ;
        }
        let t = d * (gs as u64) / (extent as u64);
        proof {
            crate::num::lemma_div_nonneg(d as int * gs as int, extent as int);
        }
        if t >= gs as u64 {
            gs - 1
        } else {
            t as usize
        }
    }
}

impl QuadTreeGrid {
    /// The grid's fixed shape: depth, origin and extent.
    pub closed spec fn shape(&self) -> (int, int, int, int, int) {
        (self.level as int, self.x as int, self.y as int, self.width as int, self.height as int)
    }

    /// The grid's structural invariant: a complete tree of buckets holding
    /// exactly the entries' indices, each entry at an existing node.
    pub closed spec fn wf(&self) -> bool {
        &&& self.level <= 8
        &&& -COORD_LIMIT <= self.x <= COORD_LIMIT
        &&& -COORD_LIMIT <= self.y <= COORD_LIMIT
        &&& 0 < self.width <= COORD_LIMIT
        &&& 0 < self.height <= COORD_LIMIT
        &&& self.tree@.len() == bias_spec(self.level as int + 1)
        &&& forall|k: int|
            0 <= k < self.entries@.len() ==> entry_wf(
                #[trigger] self.entries@[k],
                self.level as int,
            )
        &&& forall|b: int|
            0 <= b < self.tree@.len() ==> #[trigger] self.tree@[b]@ == bucket_model(
                self.entries@,
                b,
            )
    }

    /// An empty index over the rectangle from `(x, y)` extending by
    /// `(width, height)`, with `4^level` cells at the finest level.
    ///
    /// The depth is limited to 8: that is the model's limit, not a tuning
    /// choice. At depth 8 the backing array already holds `4^8` leaf
    /// buckets, and cell coordinates stay under `2^8` so every Morton code
    /// fits comfortably in a 32-bit word on any target; deeper trees would
    /// multiply the array by four per level for no precision the collision
    /// pass can use.
    pub fn new(level: usize, x: i64, y: i64, width: i64, height: i64) -> (r: QuadTreeGrid)
        requires
            level <= 8,
            -COORD_LIMIT <= x <= COORD_LIMIT,
            -COORD_LIMIT <= y <= COORD_LIMIT,
            0 < width <= COORD_LIMIT,
            0 < height <= COORD_LIMIT,
        ensures
            r.wf(),
            r@ =~= Seq::<QtEntry>::empty(),
            r.shape() == shape_of(level as int, x as int, y as int, width as int, height as int),
    {
        let bias = bias_exec(level);
        let leaves = pow4_exec(level);
        proof {
            lemma_bias_nonneg(level as int);
            lemma_pow4i_pos(level as int);
            lemma_pow4i_values();
            lemma_bias_mono(level as int, 8);
            lemma_pow4i_mono(level as int, 8);
        }
        let count = bias + leaves;
        let mut tree: Vec<Vec<usize>> = Vec::new();
        let mut i: usize = 0;
        while i < count
            invariant
                i <= count,
                tree@.len() == i,
                forall|b: int| 0 <= b < i ==> (#[trigger] tree@[b])@ =~= Seq::<usize>::empty(),
            decreases count - i,
        {
            tree.push(Vec::new());
            i = i + 1;
        }
        let r = QuadTreeGrid { level, x, y, width, height, tree, entries: Vec::new() };
        proof {
            assert forall|b: int| 0 <= b < r.tree@.len() implies #[trigger] r.tree@[b]@
                == bucket_model(r.entries@, b) by {
                assert(r.tree@[b]@ =~= Seq::<usize>::empty());
            }
        }
        r
    }

    /// The Morton code of the cell holding position `(px, py)`.
    fn get_morton_order(&self, px: i64, py: i64) -> (m: usize)
        requires
            self.wf(),
            -3 * COORD_LIMIT <= px <= 3 * COORD_LIMIT,
            -3 * COORD_LIMIT <= py <= 3 * COORD_LIMIT,
        ensures
            m == morton_spec(
                cell_of(self.shape().1, self.shape().3, pow2i(self.shape().0), px as int) as usize,
                cell_of(self.shape().2, self.shape().4, pow2i(self.shape().0), py as int) as usize,
            ),
            m < (1usize << (2 * self.level)),
    {
        let gs = 1usize << self.level;
        proof {
            vstd::arithmetic::power2::lemma2_to64();
            vstd::bits::lemma_usize_shl_is_mul(1, self.level);
            lemma_pow2i_is_pow2(self.level as int);
        }
        let cx = cell_exec(self.x, self.width, gs, px);
        let cy = cell_exec(self.y, self.height, gs, py);
        proof {
            lemma_morton_range(cx, cy, self.level);
        }
        let m = bit_separate(cx) | (bit_separate(cy) << 1usize);
        m
    }

    /// The node a box lands in: the deepest tree square containing both its
    /// corner cells. Returns `(depth, Morton prefix, flat index)`.
    fn get_index(&self, bx: i64, by: i64, bw: i64, bh: i64) -> (r: (usize, usize, usize))
        requires
            self.wf(),
            -2 * COORD_LIMIT <= bx <= 2 * COORD_LIMIT,
            -2 * COORD_LIMIT <= by <= 2 * COORD_LIMIT,
            0 <= bw <= COORD_LIMIT,
            0 <= bh <= COORD_LIMIT,
        ensures
            (r.0 as int, r.1 as int) == node_of(
                self.shape(),
                bx as int,
                by as int,
                bw as int,
                bh as int,
            ),
            r.0 <= self.level,
            (r.1 as int) < pow4i(r.0 as int),
            r.2 as int == bias_spec(r.0 as int) + r.1 as int,
            r.2 < self.tree@.len(),
    {
        let left_top = self.get_morton_order(bx, by);
        let right_bottom = self.get_morton_order(bx + bw, by + bh);
        let ghost gstart: int = (left_top ^ right_bottom) as int;
        let mut xor = left_top ^ right_bottom;
        let mut level = self.level;
        proof {
            lemma_xor_bound(left_top, right_bottom, (2 * self.level) as usize);
            lemma_pow4i_is_pow2(self.level as int);
            assert((1usize << (2 * self.level)) == pow2((2 * self.level) as nat)) by {
                vstd::arithmetic::power2::lemma2_to64();
                vstd::bits::lemma_usize_shl_is_mul(1, (2 * self.level) as usize);
            }
        }
        while xor != 0
            invariant
                level <= self.level <= 8,
                (xor as int) < pow4i(level as int),
                drop_level(xor as int, level as int) == drop_level(gstart, self.level as int),
            decreases xor,
        {
            proof {
                lemma_pow4i_pos(level as int - 1);
                lemma_shr_is_div_pow2(xor, 2);
                vstd::arithmetic::power2::lemma2_to64();
                vstd::arithmetic::div_mod::lemma_multiply_divide_lt(
                    xor as int,
                    4,
                    pow4i(level as int - 1),
                );
            }
            level = level - 1;
            xor = xor >> 2usize;
        }
        let shift = 2 * (self.level - level);
        proof {
            lemma_shr_is_div_pow2(right_bottom, shift);
            lemma_pow4i_is_pow2(self.level as int - level as int);
            lemma_pow4i_pos(self.level as int - level as int);
            lemma_pow4i_adds(level as int, self.level as int - level as int);
            vstd::arithmetic::mul::lemma_mul_is_commutative(
                pow4i(level as int),
                pow4i(self.level as int - level as int),
            );
            vstd::arithmetic::div_mod::lemma_multiply_divide_lt(
                right_bottom as int,
                pow4i(self.level as int - level as int),
                pow4i(level as int),
            );
        }
        let space = right_bottom >> shift;
        let bias = bias_exec(level);
        proof {
            lemma_bias_nonneg(level as int);
            lemma_pow4i_pos(level as int);
            lemma_pow4i_values();
            lemma_bias_mono(level as int, 8);
            lemma_pow4i_mono(level as int, 8);
            lemma_bias_mono(level as int + 1, self.level as int + 1);
        }
        (level, space, bias + space)
    }

    /// Inserts a box running from `(bx, by)` extending by `(bw, bh)`, into
    /// the deepest node that fully contains it.
    pub fn add_entity(&mut self, bx: i64, by: i64, bw: i64, bh: i64, item: u64)
        requires
            old(self).wf(),
            -2 * COORD_LIMIT <= bx <= 2 * COORD_LIMIT,
            -2 * COORD_LIMIT <= by <= 2 * COORD_LIMIT,
            0 <= bw <= COORD_LIMIT,
            0 <= bh <= COORD_LIMIT,
            old(self)@.len() < 0x1000_0000,
        ensures
            final(self).wf(),
            final(self).shape() == old(self).shape(),
            0 <= node_of(old(self).shape(), bx as int, by as int, bw as int, bh as int).0
                <= old(self).shape().0,
            0 <= node_of(old(self).shape(), bx as int, by as int, bw as int, bh as int).1
                < pow4i(node_of(old(self).shape(), bx as int, by as int, bw as int, bh as int).0),
            final(self)@ == old(self)@.push(
                QtEntry {
                    item,
                    level: node_of(
                        old(self).shape(),
                        bx as int,
                        by as int,
                        bw as int,
                        bh as int,
                    ).0 as usize,
                    space: node_of(
                        old(self).shape(),
                        bx as int,
                        by as int,
                        bw as int,
                        bh as int,
                    ).1 as usize,
                },
            ),
    {
        let (level, space, index) = self.get_index(bx, by, bw, bh);
        let n = self.entries.len();
        let entry = QtEntry { item, level, space };
        self.entries.push(entry);
        let bucket = &mut self.tree[index];
        bucket.push(n);
        proof {
            let es = self.entries@;
            assert(es.drop_last() =~= old(self).entries@);
            assert forall|b: int| 0 <= b < self.tree@.len() implies #[trigger] self.tree@[b]@
                == bucket_model(es, b) by {
                lemma_bias_nonneg(entry.level as int);
                if b == bias_spec(entry.level as int) + entry.space as int {
                    assert(self.tree@[b]@ == old(self).tree@[b]@.push(n));
                } else {
                    assert(self.tree@[b]@ == old(self).tree@[b]@);
                }
            }
        }
    }

    /// Reports every pair of entries whose nodes lie on one ancestor chain —
    /// in particular every pair of overlapping boxes — exactly once, as a
    /// pair of entry indices in insertion order, smaller index first.
    pub fn iter_entity_pair(&self) -> (pairs: Vec<(usize, usize)>)
        requires
            self.wf(),
        ensures
            forall|k: int|
                0 <= k < pairs@.len() ==> {
                    let pr = #[trigger] pairs@[k];
                    &&& (pr.0 as int) < (pr.1 as int) < self@.len()
                    &&& related(self@[pr.0 as int], self@[pr.1 as int])
                },
            forall|i: int, j: int|
                0 <= i < j < self@.len() && related(self@[i], self@[j]) ==> pairs@.contains(
                    (i as usize, j as usize),
                ),
            forall|k1: int, k2: int| 0 <= k1 < k2 < pairs@.len() ==> pairs@[k1] != pairs@[k2],
    {
        let mut stack: Vec<usize> = Vec::new();
        let mut pairs: Vec<(usize, usize)> = Vec::new();
        proof {
            lemma_entries_ok(self);
            assert(stack@ =~= stack_model(self@, 0, 0));
        }
        self.visit(0, 0, &mut stack, &mut pairs);
        proof {
            let s = self@;
            let delta = pairs@.skip(0);
            assert(delta =~= pairs@);
            assert forall|k: int|
                0 <= k < pairs@.len() implies {
                    let pr = #[trigger] pairs@[k];
                    &&& (pr.0 as int) < (pr.1 as int) < s.len()
                    &&& related(s[pr.0 as int], s[pr.1 as int])
                } by {
                assert(delta[k] == pairs@[k]);
                assert(scope_pair(s, 0, 0, delta[k].0 as int, delta[k].1 as int));
            }
            assert forall|i: int, j: int|
                0 <= i < j < s.len() && related(s[i], s[j]) implies pairs@.contains(
                (i as usize, j as usize),
            ) by {
                lemma_scope_root(s, i, j);
                assert(scope_pair(s, 0, 0, i, j));
                assert(delta.contains((i as usize, j as usize)));
                let k = choose|k: int| 0 <= k < delta.len() && delta[k] == (i as usize, j as usize);
                assert(pairs@[k] == (i as usize, j as usize));
            }
            assert forall|k1: int, k2: int|
                0 <= k1 < k2 < pairs@.len() implies pairs@[k1] != pairs@[k2] by {
                assert(delta[k1] == pairs@[k1] && delta[k2] == pairs@[k2]);
            }
        }
        pairs
    }

    /// One step of the depth-first enumeration at node `(l, sp)`: pairs the
    /// node's bucket against itself and against the accumulated ancestor
    /// stack, then descends into the four children with the bucket appended
    /// to the stack.
    #[verifier::loop_isolation(false)]
    #[verifier::rlimit(100)]
    fn visit(&self, l: usize, sp: usize, stack: &mut Vec<usize>, pairs: &mut Vec<(usize, usize)>)
        requires
            self.wf(),
            l as int <= self.shape().0,
            0 <= (sp as int) < pow4i(l as int),
            old(stack)@ == stack_model(self@, l as int, sp as int),
        ensures
            final(stack)@ == old(stack)@,
            final(pairs)@.len() >= old(pairs)@.len(),
            final(pairs)@.subrange(0, old(pairs)@.len() as int) == old(pairs)@,
            delta_ok(self@, l as int, sp as int, final(pairs)@.skip(old(pairs)@.len() as int)),
        decreases self.shape().0 - l,
    {
        let ghost s = self@;
        let ghost li = l as int;
        let ghost spi = sp as int;
        let ghost base = old(pairs)@.len() as int;
        let ghost st0 = old(stack)@;
        proof {
            lemma_entries_ok(self);
            lemma_pow4i_values();
            lemma_pow4i_pos(li);
            lemma_bias_nonneg(li);
            lemma_bias_mono(li, 8);
            lemma_bias_mono(li + 1, self.level as int + 1);
            lemma_pow4i_mono(li, 8);
            lemma_stack_elems(s, li, spi);
            lemma_stack_nodup(s, li, spi);
        }
        let bias = bias_exec(l);
        let b = bias + sp;
        proof {
            lemma_bucket_elems(s, b as int);
            lemma_bucket_increasing(s, b as int);
            assert(bias_spec(li) + spi < bias_spec(li) + pow4i(li));
            assert(b < self.tree@.len());
        }
        let ghost bkt = self.tree@[b as int]@;
        proof {
            assert(bkt == bucket_model(s, b as int));
            assert forall|p: int|
                0 <= p < bkt.len() implies (#[trigger] bkt[p]) < s.len() && at_node(
                li,
                spi,
                s[bkt[p] as int],
            ) by {
                assert(bucket_model(s, b as int)[p] == bkt[p]);
                lemma_at_node_of_flat(s[bkt[p] as int], li, spi);
            }
            assert forall|q: int|
                0 <= q < st0.len() implies (#[trigger] st0[q]) < s.len() && on_chain(
                li,
                spi,
                s[st0[q] as int],
            ) by {
                assert(stack_model(s, li, spi)[q] == st0[q]);
            }
            assert forall|q1: int, q2: int| 0 <= q1 < q2 < st0.len() implies #[trigger] st0[q1]
                != #[trigger] st0[q2] by {
                assert(stack_model(s, li, spi)[q1] == st0[q1]);
                assert(stack_model(s, li, spi)[q2] == st0[q2]);
            }
            assert(pow4i(0) == 1);
        }
        let bn = self.tree[b].len();
        let sn = stack.len();
        let mut ai: usize = 0;
        while ai < bn
            invariant
                ai <= bn,
                stack@ == st0,
                pairs@.len() >= base,
                pairs@.subrange(0, base) == old(pairs)@,
                forall|k: int|
                    base <= k < pairs@.len() ==> a_pair_ok(s, li, spi, #[trigger] pairs@[k]),
                forall|k1: int, k2: int|
                    base <= k1 < k2 < pairs@.len() ==> pairs@[k1] != pairs@[k2],
                forall|p1: int, p2: int|
                    0 <= p1 < p2 < bn && p1 < ai ==> delta_has(
                        pairs@,
                        base,
                        (#[trigger] bkt[p1], #[trigger] bkt[p2]),
                    ),
                forall|p1: int, q: int|
                    0 <= p1 < ai && 0 <= q < sn ==> delta_has(
                        pairs@,
                        base,
                        sorted_pair_spec(#[trigger] bkt[p1], #[trigger] st0[q]),
                    ),
                forall|k: int|
                    base <= k < pairs@.len() ==> a_bound_outer(
                        s,
                        li,
                        spi,
                        bkt,
                        st0,
                        ai as int,
                        #[trigger] pairs@[k],
                    ),
            decreases bn - ai,
        {
            let ka = self.tree[b][ai];
            proof {
                assert(bkt[ai as int] == ka);
            }
            let mut bi: usize = ai + 1;
            proof {
                assert forall|k: int|
                    base <= k < pairs@.len() implies a_bound_bi(
                    s,
                    li,
                    spi,
                    bkt,
                    st0,
                    ai as int,
                    bi as int,
                    #[trigger] pairs@[k],
                ) by {
                    assert(a_bound_outer(s, li, spi, bkt, st0, ai as int, pairs@[k]));
                }
            }
            while bi < bn
                invariant
                    ai < bi <= bn,
                    ka == bkt[ai as int],
                    stack@ == st0,
                    pairs@.len() >= base,
                    pairs@.subrange(0, base) == old(pairs)@,
                    forall|k: int|
                        base <= k < pairs@.len() ==> a_pair_ok(s, li, spi, #[trigger] pairs@[k]),
                    forall|k1: int, k2: int|
                        base <= k1 < k2 < pairs@.len() ==> pairs@[k1] != pairs@[k2],
                    forall|p1: int, p2: int|
                        0 <= p1 < p2 < bn && (p1 < ai || (p1 == ai && p2 < bi)) ==> delta_has(
                            pairs@,
                            base,
                            (#[trigger] bkt[p1], #[trigger] bkt[p2]),
                        ),
                    forall|p1: int, q: int|
                        0 <= p1 < ai && 0 <= q < sn ==> delta_has(
                            pairs@,
                            base,
                            sorted_pair_spec(#[trigger] bkt[p1], #[trigger] st0[q]),
                        ),
                    forall|k: int|
                        base <= k < pairs@.len() ==> a_bound_bi(
                            s,
                            li,
                            spi,
                            bkt,
                            st0,
                            ai as int,
                            bi as int,
                            #[trigger] pairs@[k],
                        ),
                decreases bn - bi,
            {
                let kb = self.tree[b][bi];
                let ghost prev = pairs@;
                proof {
                    assert(bkt[bi as int] == kb);
                    assert(ka < kb);
                    lemma_node_covers(s[ka as int], s[kb as int]);
                    assert(in_subtree(li, spi, s[ka as int]));
                    assert(in_subtree(li, spi, s[kb as int]));
                    assert(scope_pair(s, li, spi, ka as int, kb as int));
                    assert forall|k: int| base <= k < prev.len() implies prev[k] != (ka, kb) by {
                        assert(a_bound_bi(s, li, spi, bkt, st0, ai as int, bi as int, prev[k]));
                        if bs_type(s, li, spi, prev[k]) && prev[k] == (ka, kb) {
                            assert(s[ka as int].level as int == li && s[kb as int].level as int
                                == li);
                        }
                    }
                }
                pairs.push((ka, kb));
                proof {
                    assert(pairs@ == prev.push((ka, kb)));
                    assert(pairs@.subrange(0, base) =~= prev.subrange(0, base));
                    assert forall|pr: (usize, usize)|
                        delta_has(prev, base, pr) implies delta_has(pairs@, base, pr) by {
                        let k0 = choose|k0: int| base <= k0 < prev.len() && prev[k0] == pr;
                        assert(pairs@[k0] == pr);
                    }
                    let npr = (ka, kb);
                    assert(bb_type(s, li, spi, npr));
                    assert(a_pair_ok(s, li, spi, npr));
                    assert forall|k: int|
                        base <= k < pairs@.len() implies a_bound_bi(
                        s,
                        li,
                        spi,
                        bkt,
                        st0,
                        ai as int,
                        bi as int + 1,
                        #[trigger] pairs@[k],
                    ) by {
                        if k < prev.len() {
                            assert(pairs@[k] == prev[k]);
                            assert(a_bound_bi(s, li, spi, bkt, st0, ai as int, bi as int, prev[k]));
                        } else {
                            assert(pairs@[k] == npr);
                            assert forall|p2: int|
                                (bi as int) + 1 <= p2 < bkt.len() implies npr != (
                                bkt[ai as int],
                                #[trigger] bkt[p2],
                            ) by {
                                assert(bkt[bi as int] != bkt[p2]);
                            }
                            assert forall|p1: int, p2: int|
                                (ai as int) < p1 < p2 < bkt.len() implies npr != (
                                #[trigger] bkt[p1],
                                #[trigger] bkt[p2],
                            ) by {
                                assert(bkt[ai as int] != bkt[p1]);
                            }
                        }
                    }
                    assert(delta_has(pairs@, base, (bkt[ai as int], bkt[bi as int]))) by {
                        assert(pairs@[pairs@.len() - 1] == (ka, kb));
                    }
                }
                bi = bi + 1;
            }
            let mut qi: usize = 0;
            proof {
                assert forall|k: int|
                    base <= k < pairs@.len() implies a_bound_qi(
                    s,
                    li,
                    spi,
                    bkt,
                    st0,
                    ai as int,
                    0,
                    #[trigger] pairs@[k],
                ) by {
                    assert(a_bound_bi(s, li, spi, bkt, st0, ai as int, bn as int, pairs@[k]));
                }
            }
            while qi < sn
                invariant
                    qi <= sn,
                    ka == bkt[ai as int],
                    ai < bn,
                    stack@ == st0,
                    pairs@.len() >= base,
                    pairs@.subrange(0, base) == old(pairs)@,
                    forall|k: int|
                        base <= k < pairs@.len() ==> a_pair_ok(s, li, spi, #[trigger] pairs@[k]),
                    forall|k1: int, k2: int|
                        base <= k1 < k2 < pairs@.len() ==> pairs@[k1] != pairs@[k2],
                    forall|p1: int, p2: int|
                        0 <= p1 < p2 < bn && p1 <= ai ==> delta_has(
                            pairs@,
                            base,
                            (#[trigger] bkt[p1], #[trigger] bkt[p2]),
                        ),
                    forall|p1: int, q: int|
                        0 <= p1 < bn && 0 <= q < sn && (p1 < ai || (p1 == ai && q < qi))
                            ==> delta_has(
                            pairs@,
                            base,
                            sorted_pair_spec(#[trigger] bkt[p1], #[trigger] st0[q]),
                        ),
                    forall|k: int|
                        base <= k < pairs@.len() ==> a_bound_qi(
                            s,
                            li,
                            spi,
                            bkt,
                            st0,
                            ai as int,
                            qi as int,
                            #[trigger] pairs@[k],
                        ),
                decreases sn - qi,
            {
                let kq = stack[qi];
                let ghost prev = pairs@;
                let ghost npr = sorted_pair_spec(ka, kq);
                proof {
                    assert(st0[qi as int] == kq);
                    assert(on_chain(li, spi, s[kq as int]));
                    lemma_chain_covers(li, spi, s[kq as int], s[ka as int]);
                    assert(in_subtree(li, spi, s[ka as int]));
                    assert((s[kq as int].level as int) < li);
                    assert(s[ka as int].level as int == li);
                    assert(ka != kq);
                    assert(related(s[ka as int], s[kq as int]) && related(
                        s[kq as int],
                        s[ka as int],
                    ));
                    assert(scope_pair(s, li, spi, npr.0 as int, npr.1 as int));
                    assert(bs_type(s, li, spi, npr));
                    assert forall|k: int| base <= k < prev.len() implies prev[k] != npr by {
                        assert(a_bound_qi(s, li, spi, bkt, st0, ai as int, qi as int, prev[k]));
                        if bb_type(s, li, spi, prev[k]) && prev[k] == npr {
                            assert(s[npr.0 as int].level as int == li && s[npr.1 as int].level
                                as int == li);
                            assert((s[kq as int].level as int) < li);
                        }
                    }
                }
                if kq < ka {
                    pairs.push((kq, ka));
                } else {
                    pairs.push((ka, kq));
                }
                proof {
                    assert(pairs@ == prev.push(npr));
                    assert(pairs@.subrange(0, base) =~= prev.subrange(0, base));
                    assert forall|pr: (usize, usize)|
                        delta_has(prev, base, pr) implies delta_has(pairs@, base, pr) by {
                        let k0 = choose|k0: int| base <= k0 < prev.len() && prev[k0] == pr;
                        assert(pairs@[k0] == pr);
                    }
                    assert(a_pair_ok(s, li, spi, npr));
                    assert forall|k: int|
                        base <= k < pairs@.len() implies a_bound_qi(
                        s,
                        li,
                        spi,
                        bkt,
                        st0,
                        ai as int,
                        qi as int + 1,
                        #[trigger] pairs@[k],
                    ) by {
                        if k < prev.len() {
                            assert(pairs@[k] == prev[k]);
                            assert(a_bound_qi(s, li, spi, bkt, st0, ai as int, qi as int, prev[k]));
                        } else {
                            assert(pairs@[k] == npr);
                            assert forall|q: int|
                                (qi as int) + 1 <= q < st0.len() implies npr != sorted_pair_spec(
                                bkt[ai as int],
                                #[trigger] st0[q],
                            ) by {
                                assert(st0[qi as int] != st0[q]);
                            }
                            assert forall|p1: int, q: int|
                                (ai as int) < p1 < bkt.len() && 0 <= q < st0.len() implies npr
                                != sorted_pair_spec(#[trigger] bkt[p1], #[trigger] st0[q]) by {
                                assert(bkt[ai as int] != bkt[p1]);
                                assert(s[bkt[p1] as int].level as int == li);
                                assert((s[st0[q] as int].level as int) < li);
                                assert((s[st0[qi as int] as int].level as int) < li);
                            }
                        }
                    }
                    assert(delta_has(pairs@, base, sorted_pair_spec(bkt[ai as int], st0[qi as int])))
                        by {
                        assert(pairs@[pairs@.len() - 1] == npr);
                    }
                }
                qi = qi + 1;
            }
            proof {
                assert forall|k: int|
                    base <= k < pairs@.len() implies a_bound_outer(
                    s,
                    li,
                    spi,
                    bkt,
                    st0,
                    ai as int + 1,
                    #[trigger] pairs@[k],
                ) by {
                    assert(a_bound_qi(s, li, spi, bkt, st0, ai as int, sn as int, pairs@[k]));
                }
            }
            ai = ai + 1;
        }
        let ghost m0 = pairs@.len() as int;
        if l < self.level {
            proof {
                lemma_pow4i_mono(li, 7);
            }
            let mut pi: usize = 0;
            while pi < bn
                invariant
                    pi <= bn,
                    stack@ == st0 + bkt.subrange(0, pi as int),
                decreases bn - pi,
            {
                let kp = self.tree[b][pi];
                let ghost sprev = stack@;
                stack.push(kp);
                proof {
                    assert(stack@ == sprev.push(kp));
                    assert(stack@ =~= st0 + bkt.subrange(0, pi as int + 1));
                }
                pi = pi + 1;
            }
            proof {
                assert(bkt.subrange(0, bn as int) =~= bkt);
                assert(stack@ =~= st0 + bkt);
            }
            let mut d: usize = 0;
            while d < 4
                invariant
                    d <= 4,
                    stack@ == st0 + bkt,
                    pairs@.len() >= m0 >= base,
                    pairs@.subrange(0, base) == old(pairs)@,
                    forall|k: int|
                        base <= k < m0 ==> a_pair_ok(s, li, spi, #[trigger] pairs@[k]),
                    forall|k: int|
                        m0 <= k < pairs@.len() ==> child_scoped(
                            s,
                            li,
                            spi,
                            d as int,
                            #[trigger] pairs@[k],
                        ),
                    forall|k1: int, k2: int|
                        base <= k1 < k2 < pairs@.len() ==> pairs@[k1] != pairs@[k2],
                    forall|dd: int, i: int, j: int|
                        0 <= dd < d && #[trigger] scope_pair(s, li + 1, 4 * spi + dd, i, j)
                            ==> delta_has(pairs@, base, (i as usize, j as usize)),
                    forall|p1: int, p2: int|
                        0 <= p1 < p2 < bn ==> delta_has(
                            pairs@,
                            base,
                            (#[trigger] bkt[p1], #[trigger] bkt[p2]),
                        ),
                    forall|p1: int, q: int|
                        0 <= p1 < bn && 0 <= q < sn ==> delta_has(
                            pairs@,
                            base,
                            sorted_pair_spec(#[trigger] bkt[p1], #[trigger] st0[q]),
                        ),
                decreases 4 - d,
            {
                proof {
                    assert((4 * spi + d) / 4 == spi);
                    assert(stack_model(s, li + 1, 4 * spi + d as int) == stack_model(s, li, spi)
                        + bucket_model(s, bias_spec(li) + spi));
                    assert(4 * spi + d < pow4i(li + 1));
                    assert(sp < 16384);
                }
                let ghost before = pairs@;
                let cs = 4 * sp + d;
                self.visit(l + 1, cs, stack, pairs);
                proof {
                    let ghost ci = 4 * spi + d as int;
                    assert forall|k: int| 0 <= k < before.len() implies pairs@[k] == before[k] by {
                        assert(pairs@.subrange(0, before.len() as int) == before);
                        assert(pairs@.subrange(0, before.len() as int)[k] == pairs@[k]);
                    }
                    assert(pairs@.subrange(0, base) =~= before.subrange(0, base));
                    assert forall|pr: (usize, usize)|
                        delta_has(before, base, pr) implies delta_has(pairs@, base, pr) by {
                        let k0 = choose|k0: int| base <= k0 < before.len() && before[k0] == pr;
                        assert(pairs@[k0] == pr);
                    }
                    let delta = pairs@.skip(before.len() as int);
                    assert(delta_ok(s, li + 1, ci, delta));
                    assert forall|k: int|
                        base <= k < m0 implies a_pair_ok(s, li, spi, #[trigger] pairs@[k]) by {
                        assert(pairs@[k] == before[k]);
                        assert(a_pair_ok(s, li, spi, before[k]));
                    }
                    assert forall|k: int| #![trigger pairs@[k]]
                        m0 <= k < before.len() implies exists|dd: int|
                        0 <= dd < (d as int) + 1 && #[trigger] scope_pair(
                            s,
                            li + 1,
                            4 * spi + dd,
                            (pairs@[k]).0 as int,
                            pairs@[k].1 as int,
                        ) by {
                        assert(pairs@[k] == before[k]);
                        let dd = choose|dd: int|
                            0 <= dd < d && #[trigger] scope_pair(
                                s,
                                li + 1,
                                4 * spi + dd,
                                (before[k]).0 as int,
                                before[k].1 as int,
                            );
                        assert(0 <= dd < (d as int) + 1 && scope_pair(
                            s,
                            li + 1,
                            4 * spi + dd,
                            (pairs@[k]).0 as int,
                            pairs@[k].1 as int,
                        ));
                    }
                    assert forall|k: int| #![trigger pairs@[k]]
                        before.len() <= k < pairs@.len() implies exists|dd: int|
                        0 <= dd < (d as int) + 1 && #[trigger] scope_pair(
                            s,
                            li + 1,
                            4 * spi + dd,
                            (pairs@[k]).0 as int,
                            pairs@[k].1 as int,
                        ) by {
                        assert(delta[k - before.len()] == pairs@[k]);
                        assert(scope_pair(s, li + 1, ci, pairs@[k].0 as int, pairs@[k].1 as int));
                        assert(0 <= (d as int) < (d as int) + 1 && scope_pair(
                            s,
                            li + 1,
                            4 * spi + d as int,
                            pairs@[k].0 as int,
                            pairs@[k].1 as int,
                        ));
                    }
                    assert forall|k1: int, k2: int|
                        base <= k1 < k2 < pairs@.len() implies pairs@[k1] != pairs@[k2] by {
                        if k1 < before.len() && k2 >= before.len() {
                            let pr1 = pairs@[k1];
                            let pr2 = pairs@[k2];
                            assert(pr1 == before[k1]);
                            assert(pr2 == delta[k2 - before.len()]);
                            assert(scope_pair(s, li + 1, ci, pr2.0 as int, pr2.1 as int));
                            if k1 < m0 {
                                assert(a_pair_ok(s, li, spi, before[k1]));
                                assert(a_pair_ok(s, li, spi, pr1));
                                if pr1 == pr2 {
                                    assert(in_subtree(li + 1, ci, s[pr2.0 as int]) || in_subtree(
                                        li + 1,
                                        ci,
                                        s[pr2.1 as int],
                                    ));
                                    assert((s[pr1.0 as int].level as int) <= li && (s[pr1.1
                                        as int].level as int) <= li);
                                }
                            } else {
                                if pr1 == pr2 {
                                    assert(child_scoped(s, li, spi, d as int, before[k1]));
                                    let dd = choose|dd: int|
                                        0 <= dd < d && #[trigger] scope_pair(
                                            s,
                                            li + 1,
                                            4 * spi + dd,
                                            pr1.0 as int,
                                            pr1.1 as int,
                                        );
                                    lemma_scope_same_child(
                                        s,
                                        li + 1,
                                        4 * spi + dd,
                                        ci,
                                        pr1.0 as int,
                                        pr1.1 as int,
                                    );
                                }
                            }
                        } else if k1 >= before.len() {
                            assert(delta[k1 - before.len()] != delta[k2 - before.len()]);
                        } else {
                            assert(pairs@[k1] == before[k1]);
                            assert(pairs@[k2] == before[k2]);
                        }
                    }
                    assert forall|dd: int, i: int, j: int|
                        0 <= dd < (d as int) + 1 && #[trigger] scope_pair(
                            s,
                            li + 1,
                            4 * spi + dd,
                            i,
                            j,
                        ) implies delta_has(pairs@, base, (i as usize, j as usize)) by {
                        if dd < d {
                            assert(delta_has(before, base, (i as usize, j as usize)));
                            let k = choose|k: int|
                                base <= k < before.len() && before[k] == (i as usize, j as usize);
                            assert(pairs@[k] == (i as usize, j as usize));
                        } else {
                            assert(scope_pair(s, li + 1, ci, i, j));
                            assert(delta.contains((i as usize, j as usize)));
                            let k = choose|k: int|
                                0 <= k < delta.len() && delta[k] == (i as usize, j as usize);
                            assert(pairs@[before.len() + k] == (i as usize, j as usize));
                        }
                    }
                }
                d = d + 1;
            }
            stack.truncate(sn);
            proof {
                assert(stack@ =~= st0);
            }
        }
        proof {
            let delta = pairs@.skip(base);
            assert forall|pr: (usize, usize)| delta_has(pairs@, base, pr) implies delta.contains(
                pr,
            ) by {
                let k = choose|k: int| base <= k < pairs@.len() && pairs@[k] == pr;
                assert(delta[k - base] == pr);
            }
            assert forall|k: int|
                0 <= k < delta.len() implies scope_pair(
                s,
                li,
                spi,
                (#[trigger] delta[k]).0 as int,
                delta[k].1 as int,
            ) by {
                assert(delta[k] == pairs@[base + k]);
                if base + k < m0 {
                    assert(a_pair_ok(s, li, spi, pairs@[base + k]));
                } else {
                    let pr = pairs@[base + k];
                    assert(child_scoped(s, li, spi, 4, pr));
                    let dd = choose|dd: int|
                        0 <= dd < 4 && #[trigger] scope_pair(s, li + 1, 4 * spi + dd, pr.0 as int, pr.1 as int);
                    assert((4 * spi + dd) / 4 == spi);
                    lemma_scope_child_parent(s, li, spi, 4 * spi + dd, pr.0 as int, pr.1 as int);
                }
            }
            assert forall|k1: int, k2: int|
                0 <= k1 < k2 < delta.len() implies delta[k1] != delta[k2] by {
                assert(delta[k1] == pairs@[base + k1] && delta[k2] == pairs@[base + k2]);
            }
            assert forall|i: int, j: int| #[trigger] scope_pair(s, li, spi, i, j) implies delta
                .contains((i as usize, j as usize)) by {
                lemma_scope_split(s, li, spi, i, j);
                let ei = s[i];
                let ej = s[j];
                if ei.level as int <= li && ej.level as int <= li {
                    if at_node(li, spi, ei) && at_node(li, spi, ej) {
                        lemma_bucket_complete(s, bias_spec(li) + spi, i);
                        lemma_bucket_complete(s, bias_spec(li) + spi, j);
                        let p1 = choose|p: int| 0 <= p < bkt.len() && bkt[p] == i as usize;
                        let p2 = choose|p: int| 0 <= p < bkt.len() && bkt[p] == j as usize;
                        assert(p1 < p2);
                        assert(delta_has(pairs@, base, (bkt[p1], bkt[p2])));
                    } else if at_node(li, spi, ei) {
                        assert(on_chain(li, spi, ej));
                        lemma_bucket_complete(s, bias_spec(li) + spi, i);
                        lemma_stack_complete(s, li, spi, j);
                        let p1 = choose|p: int| 0 <= p < bkt.len() && bkt[p] == i as usize;
                        let q = choose|q: int| 0 <= q < st0.len() && st0[q] == j as usize;
                        assert(delta_has(pairs@, base, sorted_pair_spec(bkt[p1], st0[q])));
                        assert(sorted_pair_spec(bkt[p1], st0[q]) == (i as usize, j as usize));
                    } else {
                        assert(at_node(li, spi, ej) && on_chain(li, spi, ei));
                        lemma_bucket_complete(s, bias_spec(li) + spi, j);
                        lemma_stack_complete(s, li, spi, i);
                        let p1 = choose|p: int| 0 <= p < bkt.len() && bkt[p] == j as usize;
                        let q = choose|q: int| 0 <= q < st0.len() && st0[q] == i as usize;
                        assert(delta_has(pairs@, base, sorted_pair_spec(bkt[p1], st0[q])));
                        assert(sorted_pair_spec(bkt[p1], st0[q]) == (i as usize, j as usize));
                    }
                } else {
                    assert(li < self.shape().0);
                    let c = if ei.level >= ej.level {
                        child_space(li, ei)
                    } else {
                        child_space(li, ej)
                    };
                    let dd = c - 4 * spi;
                    assert(scope_pair(s, li + 1, 4 * spi + dd, i, j));
                    assert(delta_has(pairs@, base, (i as usize, j as usize)));
                }
            }
        }
    }
}

/// Cells never leave the grid.
pub proof fn lemma_cell_range(origin: int, extent: int, gs: int, p: int)
    requires
        extent > 0,
        gs >= 1,
    ensures
        0 <= cell_of(origin, extent, gs, p) < gs,
{
    if p >= origin {
        crate::num::lemma_div_nonneg((p - origin) * gs, extent);
    }
}

/// Cells grow with the position.
pub proof fn lemma_cell_monotone(origin: int, extent: int, gs: int, p1: int, p2: int)
    requires
        extent > 0,
        gs >= 1,
        p1 <= p2,
    ensures
        cell_of(origin, extent, gs, p1) <= cell_of(origin, extent, gs, p2),
{
    if p1 >= origin {
        vstd::arithmetic::mul::lemma_mul_inequality(p1 - origin, p2 - origin, gs);
        vstd::arithmetic::div_mod::lemma_div_is_ordered((p1 - origin) * gs, (p2 - origin) * gs, extent);
        crate::num::lemma_div_nonneg((p1 - origin) * gs, extent);
    } else if p2 >= origin {
        crate::num::lemma_div_nonneg((p2 - origin) * gs, extent);
    }
}

/// The depth the xor walk stops at stays between the leaves and the root.
pub proof fn lemma_drop_level_range(x: int, l: int)
    requires
        0 <= x < pow4i(l),
        0 <= l,
    ensures
        0 <= drop_level(x, l) <= l,
    decreases x,
{
    if x > 0 {
        proof_parent_space(l, x);
        if l >= 1 {
            lemma_drop_level_range(x / 4, l - 1);
        } else {
            assert(pow4i(0) == 1);
        }
    }
}

/// At the depth the xor walk stops, the xor has shifted away entirely.
pub proof fn lemma_drop_level_zero(x: int, l: int)
    requires
        0 <= x < pow4i(l),
        0 <= l,
    ensures
        x / pow4i(l - drop_level(x, l)) == 0,
    decreases x,
{
    if x == 0 {
        lemma_pow4i_pos(l - drop_level(x, l));
        vstd::arithmetic::div_mod::lemma_div_of0(pow4i(l - drop_level(x, l)));
    } else {
        assert(pow4i(0) == 1);
        assert(l >= 1);
        proof_parent_space(l, x);
        lemma_drop_level_zero(x / 4, l - 1);
        lemma_drop_level_range(x / 4, l - 1);
        let dl = drop_level(x, l);
        assert(dl == drop_level(x / 4, l - 1));
        lemma_prefix_twice(x, 1, l - 1 - dl);
        assert(pow4i(1) == 4);
    }
}

/// Shifting a Morton code by two bits per level is division by the matching
/// power of four.
pub proof fn lemma_shr2k_div(m: usize, k: usize)
    requires
        k <= 8,
    ensures
        (m >> (2 * k)) as int == m as int / pow4i(k as int),
{
    lemma_shr_is_div_pow2(m, (2 * k) as usize);
    lemma_pow4i_is_pow2(k as int);
}

/// Any point inside a box maps to a cell whose Morton code passes through
/// the node the box was filed under.
proof fn lemma_node_of_contains(
    level: int,
    gx: int,
    gy: int,
    gw: int,
    gh: int,
    bx: int,
    by: int,
    bw: int,
    bh: int,
    px: int,
    py: int,
)
    requires
        0 <= level <= 8,
        gw > 0,
        gh > 0,
        0 <= bw,
        0 <= bh,
        bx <= px <= bx + bw,
        by <= py <= by + bh,
    ensures
        ({
            let shape = shape_of(level, gx, gy, gw, gh);
            let (l, sp) = node_of(shape, bx, by, bw, bh);
            let gs = pow2i(level);
            let mc = morton_spec(
                cell_of(gx, gw, gs, px) as usize,
                cell_of(gy, gh, gs, py) as usize,
            ) as int;
            &&& 0 <= l <= level
            &&& 0 <= sp < pow4i(l)
            &&& mc / pow4i(level - l) == sp
        }),
{
    let shape = shape_of(level, gx, gy, gw, gh);
    let gs = pow2i(level);
    lemma_pow2i_pos(level);
    lemma_pow2i_is_pow2(level);
    vstd::arithmetic::power2::lemma2_to64();
    assert(gs <= 256) by {
        lemma_pow2i_mono(level, 8);
        reveal_with_fuel(pow2i, 10);
    }
    let cx1 = cell_of(gx, gw, gs, bx);
    let cy1 = cell_of(gy, gh, gs, by);
    let cx2 = cell_of(gx, gw, gs, bx + bw);
    let cy2 = cell_of(gy, gh, gs, by + bh);
    let cpx = cell_of(gx, gw, gs, px);
    let cpy = cell_of(gy, gh, gs, py);
    lemma_cell_range(gx, gw, gs, bx);
    lemma_cell_range(gy, gh, gs, by);
    lemma_cell_range(gx, gw, gs, bx + bw);
    lemma_cell_range(gy, gh, gs, by + bh);
    lemma_cell_range(gx, gw, gs, px);
    lemma_cell_range(gy, gh, gs, py);
    lemma_cell_monotone(gx, gw, gs, bx, px);
    lemma_cell_monotone(gx, gw, gs, px, bx + bw);
    lemma_cell_monotone(gy, gh, gs, by, py);
    lemma_cell_monotone(gy, gh, gs, py, by + bh);
    let m1 = morton_spec(cx1 as usize, cy1 as usize);
    let m2 = morton_spec(cx2 as usize, cy2 as usize);
    let mc = morton_spec(cpx as usize, cpy as usize);
    assert(cx1 < 256 && cy1 < 256 && cx2 < 256 && cy2 < 256 && cpx < 256 && cpy < 256);
    assert((1usize << 8) == 256) by (bit_vector);
    lemma_morton_range(cx1 as usize, cy1 as usize, 8);
    lemma_morton_range(cx2 as usize, cy2 as usize, 8);
    lemma_morton_range(cpx as usize, cpy as usize, 8);
    assert((1usize << 16) == 65536) by (bit_vector);
    let xr = m1 ^ m2;
    lemma_xor_bound(m1, m2, 16);
    let xi = (xr) as int;
    assert(m1 < 65536 && m2 < 65536 && mc < 65536);
    assert(xi < 65536);
    lemma_pow4i_values();
    // the xor of two codes below 4^level stays below 4^level
    let l = drop_level(xi, level);
    assert(node_of(shape, bx, by, bw, bh) == (l, m2 as int / pow4i(level - l)));
    lemma_morton_bound_level(cx1 as usize, cy1 as usize, level);
    lemma_morton_bound_level(cx2 as usize, cy2 as usize, level);
    assert(xi < pow4i(level)) by {
        lemma_pow4i_is_pow2(level);
        lemma_xor_lt_pow2(m1, m2, (2 * level) as usize);
    }
    lemma_drop_level_range(xi, level);
    lemma_drop_level_zero(xi, level);
    let k = level - l;
    assert(0 <= k <= 8);
    // xor vanished at depth l: the two corners share their node prefix
    assert(xi / pow4i(k) == 0);
    lemma_shr2k_div(xr, k as usize);
    assert((xr >> (2 * (k as usize))) as int == 0);
    lemma_xor_high_zero(m1, m2, (2 * (k as usize)) as usize);
    assert(m1 >> (2 * (k as usize)) == m2 >> (2 * (k as usize)));
    // the shared prefix is the prefix of every cell between the corners
    lemma_morton_shift(cx1 as usize, cy1 as usize, k as usize);
    lemma_morton_shift(cx2 as usize, cy2 as usize, k as usize);
    lemma_morton_shift(cpx as usize, cpy as usize, k as usize);
    crate::morton::lemma_shr_small(cx1 as usize, k as usize);
    crate::morton::lemma_shr_small(cy1 as usize, k as usize);
    crate::morton::lemma_shr_small(cx2 as usize, k as usize);
    crate::morton::lemma_shr_small(cy2 as usize, k as usize);
    lemma_morton_injective(
        (cx1 as usize) >> (k as usize),
        (cy1 as usize) >> (k as usize),
        (cx2 as usize) >> (k as usize),
        (cy2 as usize) >> (k as usize),
    );
    lemma_shr_between(cx1 as usize, cpx as usize, cx2 as usize, k as usize);
    lemma_shr_between(cy1 as usize, cpy as usize, cy2 as usize, k as usize);
    assert(mc >> (2 * (k as usize)) == m2 >> (2 * (k as usize)));
    lemma_shr2k_div(mc, k as usize);
    lemma_shr2k_div(m2, k as usize);
    assert(mc as int / pow4i(k) == m2 as int / pow4i(k));
    // and the prefix is in range for depth l
    lemma_pow4i_pos(k);
    lemma_pow4i_adds(l, k);
    vstd::arithmetic::div_mod::lemma_div_pos_is_pos(m2 as int, pow4i(k));
    vstd::arithmetic::mul::lemma_mul_is_commutative(pow4i(l), pow4i(k));
    vstd::arithmetic::div_mod::lemma_multiply_divide_lt(m2 as int, pow4i(k), pow4i(l));
}

/// A Morton code of cells below `2^level` stays below `4^level`.
proof fn lemma_morton_bound_level(x: usize, y: usize, level: int)
    requires
        0 <= level <= 8,
        (x as int) < pow2i(level),
        (y as int) < pow2i(level),
    ensures
        (morton_spec(x, y) as int) < pow4i(level),
{
    lemma_pow2i_is_pow2(level);
    lemma_pow4i_is_pow2(level);
    vstd::arithmetic::power2::lemma2_to64();
    assert((1usize << (level as usize)) == pow2(level as nat)) by {
        vstd::bits::lemma_usize_shl_is_mul(1, level as usize);
    }
    lemma_morton_range(x, y, level as usize);
    assert((1usize << (2 * (level as usize))) == pow2((2 * level) as nat)) by {
        vstd::bits::lemma_usize_shl_is_mul(1, (2 * (level as usize)) as usize);
    }
}

/// Xor of two values below a power of two stays below it.
proof fn lemma_xor_lt_pow2(a: usize, b: usize, k: usize)
    requires
        k <= 16,
        (a as int) < pow2(k as nat),
        (b as int) < pow2(k as nat),
    ensures
        ((a ^ b) as int) < pow2(k as nat),
{
    assert((1usize << k) == pow2(k as nat)) by {
        vstd::arithmetic::power2::lemma2_to64();
        vstd::bits::lemma_usize_shl_is_mul(1, k);
    }
    lemma_xor_bound(a, b, k);
}

/// `pow2i` is monotone.
pub proof fn lemma_pow2i_mono(a: int, b: int)
    requires
        a <= b,
    ensures
        pow2i(a) <= pow2i(b),
    decreases b - a,
{
    if a < b {
        lemma_pow2i_mono(a, b - 1);
        lemma_pow2i_pos(b - 1);
    }
}

/// Two boxes whose closed extents intersect on both axes are filed under
/// nodes on one ancestor chain: pair enumeration will visit them together.
pub proof fn lemma_overlap_related(
    level: int,
    gx: int,
    gy: int,
    gw: int,
    gh: int,
    x1: int,
    y1: int,
    w1: int,
    h1: int,
    x2: int,
    y2: int,
    w2: int,
    h2: int,
    e1: QtEntry,
    e2: QtEntry,
)
    requires
        0 <= level <= 8,
        gw > 0,
        gh > 0,
        0 <= w1,
        0 <= h1,
        0 <= w2,
        0 <= h2,
        x1 <= x2 + w2,
        x2 <= x1 + w1,
        y1 <= y2 + h2,
        y2 <= y1 + h1,
        e1.level as int == node_of(shape_of(level, gx, gy, gw, gh), x1, y1, w1, h1).0,
        e1.space as int == node_of(shape_of(level, gx, gy, gw, gh), x1, y1, w1, h1).1,
        e2.level as int == node_of(shape_of(level, gx, gy, gw, gh), x2, y2, w2, h2).0,
        e2.space as int == node_of(shape_of(level, gx, gy, gw, gh), x2, y2, w2, h2).1,
    ensures
        related(e1, e2),
{
    let px = if x1 >= x2 {
        x1
    } else {
        x2
    };
    let py = if y1 >= y2 {
        y1
    } else {
        y2
    };
    assert(x1 <= px <= x1 + w1 && x2 <= px <= x2 + w2);
    assert(y1 <= py <= y1 + h1 && y2 <= py <= y2 + h2);
    lemma_node_of_contains(level, gx, gy, gw, gh, x1, y1, w1, h1, px, py);
    lemma_node_of_contains(level, gx, gy, gw, gh, x2, y2, w2, h2, px, py);
    let gs = pow2i(level);
    let mc = morton_spec(cell_of(gx, gw, gs, px) as usize, cell_of(gy, gh, gs, py) as usize) as int;
    let l1 = e1.level as int;
    let l2 = e2.level as int;
    if l1 <= l2 {
        lemma_prefix_twice(mc, level - l2, l2 - l1);
        assert(covers(e1, e2));
    } else {
        lemma_prefix_twice(mc, level - l1, l1 - l2);
        assert(covers(e2, e1));
    }
}

} // verus!
