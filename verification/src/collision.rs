//! The per-frame collision pass: a tag matrix of collide/trigger pairs, a
//! quadtree broad phase per tag pair, an exact AABB narrow phase, trigger
//! recording, largest-magnitude penetration correction, and the velocity
//! response for corrected rigidbodies.

use vstd::prelude::*;

verus! {

use crate::components::{
    Collided,
    ColliderResult,
    Entity,
    Rigidbody,
    Vec2,
    BOUNCE_LIMIT,
    COORD_LIMIT,
    FX_ONE,
    VEL_LIMIT,
};
use crate::num::{abs_spec, div_trunc};

/// The collision system: the static tag matrix, and the bounds and depth of
/// the quadtree built for each tag pair.
pub struct CollisionSystem {
    collide_entries: Vec<(String, String)>,
    trigger_entries: Vec<(String, String)>,
    level: usize,
    x: i64,
    y: i64,
    width: i64,
    height: i64,
}

/// The list entry names the unordered tag pair `{a, b}`.
pub open spec fn pair_matches(e: (String, String), a: Seq<char>, b: Seq<char>) -> bool {
    (e.0@ == a && e.1@ == b) || (e.0@ == b && e.1@ == a)
}

/// Some entry of the list names the unordered pair `{a, b}`.
pub open spec fn list_has_pair(l: Seq<(String, String)>, a: Seq<char>, b: Seq<char>) -> bool {
    exists|k: int| 0 <= k < l.len() && pair_matches(#[trigger] l[k], a, b)
}

/// Each unordered tag pair appears at most once in the list.
pub open spec fn list_distinct(l: Seq<(String, String)>) -> bool {
    forall|k1: int, k2: int|
        0 <= k1 < k2 < l.len() ==> !pair_matches(#[trigger] l[k1], (#[trigger] l[k2]).0@, l[k2].1@)
}

impl CollisionSystem {
    /// The registered collide relation, symmetric by construction.
    pub closed spec fn collides(&self, a: Seq<char>, b: Seq<char>) -> bool {
        list_has_pair(self.collide_entries@, a, b)
    }

    /// The registered trigger relation, symmetric by construction.
    pub closed spec fn triggers(&self, a: Seq<char>, b: Seq<char>) -> bool {
        list_has_pair(self.trigger_entries@, a, b)
    }

    /// The collide relation holds with `a` as the side the pair was first
    /// registered under: ties in the push-apart direction break toward that
    /// side.
    pub closed spec fn collide_fwd(&self, a: Seq<char>, b: Seq<char>) -> bool {
        exists|k: int|
            0 <= k < self.collide_entries@.len() && (#[trigger] self.collide_entries@[k]).0@ == a
                && self.collide_entries@[k].1@ == b
    }

    /// The playfield rectangle and quadtree depth used for the broad phase.
    pub closed spec fn shape(&self) -> (int, int, int, int, int) {
        (self.level as int, self.x as int, self.y as int, self.width as int, self.height as int)
    }

    /// Well-formed matrix: valid grid bounds and no repeated tag pair.
    pub closed spec fn wf(&self) -> bool {
        &&& self.level <= 8
        &&& -COORD_LIMIT <= self.x <= COORD_LIMIT
        &&& -COORD_LIMIT <= self.y <= COORD_LIMIT
        &&& 0 < self.width <= COORD_LIMIT
        &&& 0 < self.height <= COORD_LIMIT
        &&& list_distinct(self.collide_entries@)
        &&& list_distinct(self.trigger_entries@)
    }

    /// An empty matrix over the default 640 x 480 unit playfield with a
    /// depth-4 tree, as the game uses.
    pub fn new_default() -> (r: CollisionSystem)
        ensures
            r.wf(),
            r.shape() == crate::quadtree::shape_of(
                4,
                0,
                0,
                640 * FX_ONE as int,
                480 * FX_ONE as int,
            ),
            forall|a: Seq<char>, b: Seq<char>| !(#[trigger] r.collides(a, b)),
            forall|a: Seq<char>, b: Seq<char>| !(#[trigger] r.triggers(a, b)),
    {
        CollisionSystem {
            collide_entries: Vec::new(),
            trigger_entries: Vec::new(),
            level: 4,
            x: 0,
            y: 0,
            width: 640 * FX_ONE,
            height: 480 * FX_ONE,
        }
    }

    fn has_entry(l: &Vec<(String, String)>, a: &String, b: &String) -> (r: bool)
        ensures
            r == list_has_pair(l@, a@, b@),
    {
        let n = l.len();
        let mut k: usize = 0;
        while k < n
            invariant
                k <= n == l@.len(),
                forall|e: int| 0 <= e < k ==> !pair_matches(#[trigger] l@[e], a@, b@),
            decreases n - k,
        {
            let e = &l[k];
            if (e.0 == *a && e.1 == *b) || (e.0 == *b && e.1 == *a) {
                proof {
                    assert(pair_matches(l@[k as int], a@, b@));
                }
                return true;
            }
            k = k + 1;
        }
        false
    }

    /// Registers `{a, b}` as a collide pair: overlapping boxes with these
    /// tags are pushed apart. Registration is symmetric.
    pub fn collide(self, a: &str, b: &str) -> (r: CollisionSystem)
        requires
            self.wf(),
        ensures
            r.wf(),
            r.shape() == self.shape(),
            forall|x: Seq<char>, y: Seq<char>|
                #[trigger] r.collides(x, y) == (self.collides(x, y) || (x == a@ && y == b@) || (x
                    == b@ && y == a@)),
            forall|x: Seq<char>, y: Seq<char>| #[trigger] r.triggers(x, y) == self.triggers(x, y),
    {
        let sa = a.to_owned();
        let sb = b.to_owned();
        let mut s = self;
        if !Self::has_entry(&s.collide_entries, &sa, &sb) {
            let ghost pre = s.collide_entries@;
            s.collide_entries.push((sa, sb));
            proof {
                assert forall|k1: int, k2: int|
                    0 <= k1 < k2 < s.collide_entries@.len() implies !pair_matches(
                    #[trigger] s.collide_entries@[k1],
                    (#[trigger] s.collide_entries@[k2]).0@,
                    s.collide_entries@[k2].1@,
                ) by {
                    if k2 == pre.len() {
                        assert(s.collide_entries@[k1] == pre[k1]);
                        assert(!pair_matches(pre[k1], a@, b@));
                    } else {
                        assert(s.collide_entries@[k1] == pre[k1]);
                        assert(s.collide_entries@[k2] == pre[k2]);
                    }
                }
            }
        }
        proof {
            let l0 = self.collide_entries@;
            let l1 = s.collide_entries@;
            assert forall|x: Seq<char>, y: Seq<char>| #[trigger]
                list_has_pair(l1, x, y) == (list_has_pair(l0, x, y) || (x == a@ && y == b@) || (x
                == b@ && y == a@)) by {
                if list_has_pair(l0, x, y) {
                    let k = choose|k: int| 0 <= k < l0.len() && pair_matches(#[trigger] l0[k], x, y);
                    assert(pair_matches(l1[k], x, y));
                }
                if x == a@ && y == b@ || x == b@ && y == a@ {
                    if l1.len() > l0.len() {
                        assert(pair_matches(l1[l0.len() as int], x, y));
                    } else {
                        assert(list_has_pair(l0, a@, b@));
                        let k = choose|k: int|
                            0 <= k < l0.len() && pair_matches(#[trigger] l0[k], a@, b@);
                        assert(pair_matches(l1[k], x, y));
                    }
                }
                if list_has_pair(l1, x, y) {
                    let k = choose|k: int| 0 <= k < l1.len() && pair_matches(#[trigger] l1[k], x, y);
                    if k < l0.len() {
                        assert(pair_matches(l0[k], x, y));
                    }
                }
            }
        }
        s
    }

    /// Registers `{a, b}` as a trigger pair: overlapping boxes with these
    /// tags are recorded in each other's results. Registration is symmetric.
    pub fn trigger(self, a: &str, b: &str) -> (r: CollisionSystem)
        requires
            self.wf(),
        ensures
            r.wf(),
            r.shape() == self.shape(),
            forall|x: Seq<char>, y: Seq<char>|
                #[trigger] r.triggers(x, y) == (self.triggers(x, y) || (x == a@ && y == b@) || (x
                    == b@ && y == a@)),
            forall|x: Seq<char>, y: Seq<char>| #[trigger] r.collides(x, y) == self.collides(x, y),
    {
        let sa = a.to_owned();
        let sb = b.to_owned();
        let mut s = self;
        if !Self::has_entry(&s.trigger_entries, &sa, &sb) {
            let ghost pre = s.trigger_entries@;
            s.trigger_entries.push((sa, sb));
            proof {
                assert forall|k1: int, k2: int|
                    0 <= k1 < k2 < s.trigger_entries@.len() implies !pair_matches(
                    #[trigger] s.trigger_entries@[k1],
                    (#[trigger] s.trigger_entries@[k2]).0@,
                    s.trigger_entries@[k2].1@,
                ) by {
                    if k2 == pre.len() {
                        assert(s.trigger_entries@[k1] == pre[k1]);
                        assert(!pair_matches(pre[k1], a@, b@));
                    } else {
                        assert(s.trigger_entries@[k1] == pre[k1]);
                        assert(s.trigger_entries@[k2] == pre[k2]);
                    }
                }
            }
        }
        proof {
            let l0 = self.trigger_entries@;
            let l1 = s.trigger_entries@;
            assert forall|x: Seq<char>, y: Seq<char>| #[trigger]
                list_has_pair(l1, x, y) == (list_has_pair(l0, x, y) || (x == a@ && y == b@) || (x
                == b@ && y == a@)) by {
                if list_has_pair(l0, x, y) {
                    let k = choose|k: int| 0 <= k < l0.len() && pair_matches(#[trigger] l0[k], x, y);
                    assert(pair_matches(l1[k], x, y));
                }
                if x == a@ && y == b@ || x == b@ && y == a@ {
                    if l1.len() > l0.len() {
                        assert(pair_matches(l1[l0.len() as int], x, y));
                    } else {
                        assert(list_has_pair(l0, a@, b@));
                        let k = choose|k: int|
                            0 <= k < l0.len() && pair_matches(#[trigger] l0[k], a@, b@);
                        assert(pair_matches(l1[k], x, y));
                    }
                }
                if list_has_pair(l1, x, y) {
                    let k = choose|k: int| 0 <= k < l1.len() && pair_matches(#[trigger] l1[k], x, y);
                    if k < l0.len() {
                        assert(pair_matches(l0[k], x, y));
                    }
                }
            }
        }
        s
    }
}

/// Registering an unordered pair registers it both ways: the relations are
/// symmetric for every matrix this module can build.
pub proof fn lemma_matrix_symmetric(sys: &CollisionSystem, a: Seq<char>, b: Seq<char>)
    ensures
        sys.collides(a, b) == sys.collides(b, a),
        sys.triggers(a, b) == sys.triggers(b, a),
{
}

/// The entity carries a box collider.
pub open spec fn has_collider(e: Entity) -> bool {
    e.collider is Some
}

/// The collider tag, as a character sequence.
pub open spec fn tag_view(e: Entity) -> Seq<char> {
    e.collider.unwrap().tag@
}

/// Twice the penetration depth along one axis: `(wa + wb) - 2 * |bx - ax|`,
/// kept doubled so that no half-unit is lost. Positive exactly when the
/// boxes overlap on the axis.
pub open spec fn sinking2(aw: int, ax: int, bw: int, bx: int) -> int {
    (aw + bw) - 2 * abs_spec(bx - ax)
}

/// Twice the x-axis penetration of two collider-bearing entities.
pub open spec fn s2x(a: Entity, b: Entity) -> int {
    sinking2(a.collider.unwrap().width as int, a.pos.x as int, b.collider.unwrap().width as int, b.pos.x as int)
}

/// Twice the y-axis penetration.
pub open spec fn s2y(a: Entity, b: Entity) -> int {
    sinking2(a.collider.unwrap().height as int, a.pos.y as int, b.collider.unwrap().height as int, b.pos.y as int)
}

/// Standard AABB test: the boxes overlap exactly when both axes penetrate.
pub open spec fn overlap(a: Entity, b: Entity) -> bool {
    s2x(a, b) > 0 && s2y(a, b) > 0
}

/// The recorded x correction magnitude: the penetration rounded up to whole
/// units, so that pushing both boxes apart by it always separates them.
pub open spec fn sink_x(a: Entity, b: Entity) -> int {
    (s2x(a, b) + 1) / 2
}

/// The recorded y correction magnitude.
pub open spec fn sink_y(a: Entity, b: Entity) -> int {
    (s2y(a, b) + 1) / 2
}

/// The signed x correction for the first entity: pushed away from the
/// second along the line between their centers, toward the first side on a
/// tie.
pub open spec fn corr_x_for(a: Entity, b: Entity) -> int {
    if b.pos.x - a.pos.x > 0 {
        -sink_x(a, b)
    } else {
        sink_x(a, b)
    }
}

/// The signed y correction for the first entity.
pub open spec fn corr_y_for(a: Entity, b: Entity) -> int {
    if b.pos.y - a.pos.y > 0 {
        -sink_y(a, b)
    } else {
        sink_y(a, b)
    }
}

/// Twice the x-axis penetration of two boxes of widths `aw`, `bw` centered
/// at `ax`, `bx`: a pure function of centers and sizes, positive exactly
/// when they overlap on the axis.
pub fn sinking_x(ax: i64, aw: i64, bx: i64, bw: i64) -> (r: i64)
    requires
        0 < aw <= COORD_LIMIT,
        0 < bw <= COORD_LIMIT,
        -COORD_LIMIT <= ax <= COORD_LIMIT,
        -COORD_LIMIT <= bx <= COORD_LIMIT,
    ensures
        r == sinking2(aw as int, ax as int, bw as int, bx as int),
{
    (aw + bw) - 2 * crate::num::abs_i64(bx - ax)
}

/// Twice the y-axis penetration, the same function on the other axis.
pub fn sinking_y(ay: i64, ah: i64, by: i64, bh: i64) -> (r: i64)
    requires
        0 < ah <= COORD_LIMIT,
        0 < bh <= COORD_LIMIT,
        -COORD_LIMIT <= ay <= COORD_LIMIT,
        -COORD_LIMIT <= by <= COORD_LIMIT,
    ensures
        r == sinking2(ah as int, ay as int, bh as int, by as int),
{
    (ah + bh) - 2 * crate::num::abs_i64(by - ay)
}

/// What the velocity response does: remove the velocity component along the
/// correction normal scaled by `1 + bounciness`, then scale everything by
/// `1 - friction`, in fixed-point arithmetic that multiplies before it
/// divides.
pub open spec fn reflect_spec(v: Vec2, c: Vec2, bounce: int, friction: int) -> (int, int) {
    let dot = v.x * c.x + v.y * c.y;
    let den = (c.x * c.x + c.y * c.y) * FX_ONE;
    let qx = div_trunc(c.x * dot * (FX_ONE + bounce), den);
    let qy = div_trunc(c.y * dot * (FX_ONE + bounce), den);
    let wx = div_trunc((v.x - qx) * (FX_ONE - friction), FX_ONE as int);
    let wy = div_trunc((v.y - qy) * (FX_ONE - friction), FX_ONE as int);
    (wx, wy)
}

/// The product of bounded values is bounded.
proof fn lemma_abs_mul_le(a: int, b: int, aa: int, bb: int)
    by (nonlinear_arith)
    requires
        abs_spec(a) <= aa,
        abs_spec(b) <= bb,
    ensures
        abs_spec(a * b) <= aa * bb,
{
}

/// A product never beats the sum of the squares.
proof fn lemma_prod_le_sum_sq(a: int, b: int)
    by (nonlinear_arith)
    ensures
        abs_spec(a * b) <= a * a + b * b,
        a * a >= 0,
        b * b >= 0,
        a != 0 ==> a * a >= 1,
{
}

/// Scaling an inequality by a nonnegative factor keeps it.
proof fn lemma_scale_le(a: int, b: int, c: int)
    by (nonlinear_arith)
    requires
        a <= b,
        c >= 0,
    ensures
        a * c <= b * c,
        c * a <= c * b,
{
}

/// Bounds for the reflection arithmetic: the numerators stay within
/// `2^38` times the denominator, so the removed component fits comfortably.
proof fn lemma_reflect_bounds(vx: int, vy: int, cx: int, cy: int, bo: int)
    requires
        abs_spec(vx) <= VEL_LIMIT,
        abs_spec(vy) <= VEL_LIMIT,
        abs_spec(cx) <= 2 * COORD_LIMIT,
        abs_spec(cy) <= 2 * COORD_LIMIT,
        0 <= bo <= BOUNCE_LIMIT,
        cx != 0 || cy != 0,
    ensures
        abs_spec(vx * cx) <= 2 * VEL_LIMIT * COORD_LIMIT,
        abs_spec(vy * cy) <= 2 * VEL_LIMIT * COORD_LIMIT,
        abs_spec(vx * cx + vy * cy) <= 4 * VEL_LIMIT * COORD_LIMIT,
        abs_spec(cx * cx) <= 4 * COORD_LIMIT * COORD_LIMIT,
        abs_spec(cy * cy) <= 4 * COORD_LIMIT * COORD_LIMIT,
        0 < cx * cx + cy * cy <= 8 * COORD_LIMIT * COORD_LIMIT,
        abs_spec(cx * (vx * cx + vy * cy) * (FX_ONE + bo)) <= ((cx * cx + cy * cy) * FX_ONE)
            * 0x40_0000_0000,
        abs_spec(cy * (vx * cx + vy * cy) * (FX_ONE + bo)) <= ((cx * cx + cy * cy) * FX_ONE)
            * 0x40_0000_0000,
        ((cx * cx + cy * cy) * FX_ONE) * 0x40_0000_0000 < 0x4_0000_0000_0000_0000_0000_0000_0000,
        abs_spec(cx * (vx * cx + vy * cy)) <= 16 * COORD_LIMIT * COORD_LIMIT * VEL_LIMIT,
        abs_spec(cy * (vx * cx + vy * cy)) <= 16 * COORD_LIMIT * COORD_LIMIT * VEL_LIMIT,
{
    let dot = vx * cx + vy * cy;
    let ssq = cx * cx + cy * cy;
    lemma_abs_mul_le(vx, cx, VEL_LIMIT as int, 2 * COORD_LIMIT);
    lemma_abs_mul_le(vy, cy, VEL_LIMIT as int, 2 * COORD_LIMIT);
    lemma_abs_mul_le(cx, cx, 2 * COORD_LIMIT, 2 * COORD_LIMIT);
    lemma_abs_mul_le(cy, cy, 2 * COORD_LIMIT, 2 * COORD_LIMIT);
    assert((2 * COORD_LIMIT) * (2 * COORD_LIMIT) == 4 * COORD_LIMIT * COORD_LIMIT)
        by (nonlinear_arith);
    assert(8 * COORD_LIMIT * COORD_LIMIT == 0x8_0000_0000_0000_0000) by (nonlinear_arith)
        requires
            COORD_LIMIT == 0x1_0000_0000,
    ;
    assert(FX_ONE == 256);
    assert((0x8_0000_0000_0000_0000int * 256) * 0x40_0000_0000
        < 0x4_0000_0000_0000_0000_0000_0000_0000) by (nonlinear_arith);
    assert(((8 * COORD_LIMIT * COORD_LIMIT) * FX_ONE) * 0x40_0000_0000 == (
    0x8_0000_0000_0000_0000int * 256) * 0x40_0000_0000);
    lemma_prod_le_sum_sq(cx, cy);
    lemma_prod_le_sum_sq(cx, cx);
    lemma_prod_le_sum_sq(cy, cy);
    if cx != 0 {
        assert(cx * cx >= 1);
    } else {
        assert(cy * cy >= 1);
    }
    assert(0 < ssq);
    assert(ssq * FX_ONE * 0x40_0000_0000 <= (8 * COORD_LIMIT * COORD_LIMIT) * FX_ONE
        * 0x40_0000_0000) by (nonlinear_arith)
        requires
            0 < ssq <= 8 * COORD_LIMIT * COORD_LIMIT,
    ;
    // |cx * dot| <= cx^2 |vx| + |cx||cy| |vy| <= ssq (|vx| + |vy|)
    assert(abs_spec(cx * dot) <= ssq * (abs_spec(vx) + abs_spec(vy))) by (nonlinear_arith)
        requires
            dot == vx * cx + vy * cy,
            ssq == cx * cx + cy * cy,
            abs_spec(cx * cy) <= ssq,
            cx * cx >= 0,
            cy * cy >= 0,
    ;
    assert(abs_spec(cy * dot) <= ssq * (abs_spec(vx) + abs_spec(vy))) by (nonlinear_arith)
        requires
            dot == vx * cx + vy * cy,
            ssq == cx * cx + cy * cy,
            abs_spec(cx * cy) <= ssq,
            cx * cx >= 0,
            cy * cy >= 0,
    ;
    lemma_scale_le(abs_spec(vx) + abs_spec(vy), 2 * VEL_LIMIT, ssq);
    // fold in the restitution factor
    lemma_abs_mul_le(cx * dot, FX_ONE + bo, ssq * (2 * VEL_LIMIT), FX_ONE + BOUNCE_LIMIT as int);
    lemma_abs_mul_le(cy * dot, FX_ONE + bo, ssq * (2 * VEL_LIMIT), FX_ONE + BOUNCE_LIMIT as int);
    assert((ssq * (2 * VEL_LIMIT)) * (FX_ONE + BOUNCE_LIMIT) <= ((ssq * FX_ONE))
        * 0x40_0000_0000) by (nonlinear_arith)
        requires
            ssq >= 0,
    ;
    lemma_abs_mul_le(cx, dot, 2 * COORD_LIMIT, 4 * VEL_LIMIT * COORD_LIMIT);
    lemma_abs_mul_le(cy, dot, 2 * COORD_LIMIT, 4 * VEL_LIMIT * COORD_LIMIT);
    assert(2 * COORD_LIMIT * (4 * VEL_LIMIT * COORD_LIMIT) <= 16 * COORD_LIMIT * COORD_LIMIT
        * VEL_LIMIT) by (nonlinear_arith);
}

/// The velocity response for a body hit with correction `c`: exactly
/// [`reflect_spec`].
pub fn reflect(v: Vec2, c: Vec2, bounce: i64, friction: i64) -> (r: Vec2)
    requires
        abs_spec(v.x as int) <= VEL_LIMIT,
        abs_spec(v.y as int) <= VEL_LIMIT,
        abs_spec(c.x as int) <= 2 * COORD_LIMIT,
        abs_spec(c.y as int) <= 2 * COORD_LIMIT,
        0 <= bounce <= BOUNCE_LIMIT,
        0 <= friction <= FX_ONE,
        c.x != 0 || c.y != 0,
    ensures
        (r.x as int, r.y as int) == reflect_spec(v, c, bounce as int, friction as int),
{
    proof {
        lemma_reflect_bounds(v.x as int, v.y as int, c.x as int, c.y as int, bounce as int);
    }
    let vx = v.x as i128;
    let vy = v.y as i128;
    let cx = c.x as i128;
    let cy = c.y as i128;
    let dot = vx * cx + vy * cy;
    let den = (cx * cx + cy * cy) * (FX_ONE as i128);
    let numx = cx * dot * ((FX_ONE + bounce) as i128);
    let numy = cy * dot * ((FX_ONE + bounce) as i128);
    proof {
        crate::num::lemma_div_trunc_bound(numx as int, den as int, 0x40_0000_0000);
        crate::num::lemma_div_trunc_bound(numy as int, den as int, 0x40_0000_0000);
    }
    let qx = crate::num::div_trunc_i128(numx, den) as i64;
    let qy = crate::num::div_trunc_i128(numy, den) as i64;
    let fx = v.x - qx;
    let fy = v.y - qy;
    proof {
        crate::num::lemma_div_trunc_shrinks(fx as int * (FX_ONE - friction) as int, FX_ONE as int);
        assert(abs_spec(fx as int * (FX_ONE - friction)) <= 0x41_0000_0000 * 256) by (nonlinear_arith)
            requires
                abs_spec(fx as int) <= 0x41_0000_0000,
                0 <= FX_ONE - friction <= 256,
        ;
        crate::num::lemma_div_trunc_shrinks(fy as int * (FX_ONE - friction) as int, FX_ONE as int);
        assert(abs_spec(fy as int * (FX_ONE - friction)) <= 0x41_0000_0000 * 256) by (nonlinear_arith)
            requires
                abs_spec(fy as int) <= 0x41_0000_0000,
                0 <= FX_ONE - friction <= 256,
        ;
    }
    let wx = crate::num::div_trunc_i64(fx * (FX_ONE - friction), FX_ONE);
    let wy = crate::num::div_trunc_i64(fy * (FX_ONE - friction), FX_ONE);
    Vec2 { x: wx, y: wy }
}

/// Clears every collider-bearing entity's result to an empty one and drops
/// the results of entities without a collider; touches nothing else.
fn reset_results(world: &mut Vec<Entity>)
    ensures
        final(world)@.len() == old(world)@.len(),
        forall|i: int|
            0 <= i < old(world)@.len() ==> reset_rel(old(world)@[i], #[trigger] final(world)@[i]),
{
    let n = world.len();
    let mut i: usize = 0;
    while i < n
        invariant
            i <= n,
            n == world@.len() == old(world)@.len(),
            forall|k: int| 0 <= k < i ==> reset_rel(old(world)@[k], #[trigger] world@[k]),
            forall|k: int| i <= k < n ==> #[trigger] world@[k] == old(world)@[k],
        decreases n - i,
    {
        let has = world[i].collider.is_some();
        let er = &mut world[i];
        if has {
            er.result = Some(ColliderResult::new());
        } else {
            er.result = None;
        }
        i = i + 1;
    }
}

/// What the reset pass does to one entity.
pub open spec fn reset_rel(e0: Entity, e1: Entity) -> bool {
    &&& e1.pos == e0.pos
    &&& e1.facing == e0.facing
    &&& e1.collider == e0.collider
    &&& e1.body == e0.body
    &&& if has_collider(e0) {
        &&& e1.result is Some
        &&& e1.result.unwrap().collided@.len() == 0
        &&& e1.result.unwrap().collision == (Vec2 { x: 0, y: 0 })
    } else {
        e1.result is None
    }
}

/// The indices, in increasing order, of the collider-bearing entities whose
/// tag is `tag`.
fn collect_tagged(world: &Vec<Entity>, tag: &String) -> (ids: Vec<usize>)
    ensures
        ids@.len() <= world@.len(),
        forall|p: int|
            0 <= p < ids@.len() ==> (#[trigger] ids@[p]) < world@.len() && has_collider(
                world@[ids@[p] as int],
            ) && tag_view(world@[ids@[p] as int]) == tag@,
        forall|p1: int, p2: int| 0 <= p1 < p2 < ids@.len() ==> ids@[p1] < ids@[p2],
        forall|i: int|
            0 <= i < world@.len() && has_collider(#[trigger] world@[i]) && tag_view(world@[i])
                == tag@ ==> exists|p: int| 0 <= p < ids@.len() && ids@[p] == i as usize,
{
    let n = world.len();
    let mut ids: Vec<usize> = Vec::new();
    let mut i: usize = 0;
    while i < n
        invariant
            i <= n == world@.len(),
            ids@.len() <= i,
            forall|p: int|
                0 <= p < ids@.len() ==> (#[trigger] ids@[p]) < i && has_collider(
                    world@[ids@[p] as int],
                ) && tag_view(world@[ids@[p] as int]) == tag@,
            forall|p1: int, p2: int| 0 <= p1 < p2 < ids@.len() ==> ids@[p1] < ids@[p2],
            forall|k: int|
                0 <= k < i && has_collider(#[trigger] world@[k]) && tag_view(world@[k]) == tag@
                    ==> exists|p: int| 0 <= p < ids@.len() && ids@[p] == k as usize,
        decreases n - i,
    {
        let ghost pre = ids@;
        let mut push_it: bool = false;
        match &world[i].collider {
            Some(c) => {
                if c.tag == *tag {
                    push_it = true;
                }
            },
            None => {},
        }
        if push_it {
            ids.push(i);
            proof {
                assert(ids@[pre.len() as int] == i);
                assert forall|k: int|
                    0 <= k < i + 1 && has_collider(#[trigger] world@[k]) && tag_view(world@[k])
                        == tag@ implies exists|p: int| 0 <= p < ids@.len() && ids@[p] == k as usize by {
                    if k < i {
                        let p = choose|p: int| 0 <= p < pre.len() && pre[p] == k as usize;
                        assert(ids@[p] == k as usize);
                    } else {
                        assert(ids@[pre.len() as int] == k as usize);
                    }
                }
            }
        }
        i = i + 1;
    }
    ids
}

/// Keep the candidate only if it beats the recorded magnitude.
pub open spec fn merge_abs(old: int, cand: int) -> int {
    if abs_spec(old) < abs_spec(cand) {
        cand
    } else {
        old
    }
}

/// The two entities have colliders tagged with this entry's unordered tag
/// pair.
pub open spec fn this_pair(w: Seq<Entity>, ta: Seq<char>, tb: Seq<char>, i: int, j: int) -> bool {
    &&& 0 <= i < w.len()
    &&& 0 <= j < w.len()
    &&& i != j
    &&& has_collider(w[i])
    &&& has_collider(w[j])
    &&& ((tag_view(w[i]) == ta && tag_view(w[j]) == tb) || (tag_view(w[i]) == tb && tag_view(w[j])
        == ta))
}

/// Positions and sizes small enough for the narrow phase and the broad
/// phase to stay in range.
pub open spec fn geom_ok(e: Entity) -> bool {
    &&& abs_spec(e.pos.x as int) <= COORD_LIMIT
    &&& abs_spec(e.pos.y as int) <= COORD_LIMIT
    &&& (has_collider(e) ==> e.collider.unwrap().wf())
}

/// The entity is untouched but for its result, which is still present.
pub open spec fn same_but_result(e0: Entity, e1: Entity) -> bool {
    &&& e1.pos == e0.pos
    &&& e1.facing == e0.facing
    &&& e1.collider == e0.collider
    &&& e1.body == e0.body
    &&& e1.result is Some
}

/// What processing one broad-phase pair `(ia, ib)` under an entry with
/// flags `(is_collide, is_trigger)` does, `ia` being the side the entry
/// was registered under first.
pub open spec fn pair_step(
    a0: Entity,
    b0: Entity,
    a1: Entity,
    b1: Entity,
    tb_tag: Seq<char>,
    ta_tag: Seq<char>,
    ib: int,
    ia: int,
    is_collide: bool,
    is_trigger: bool,
) -> bool {
    if !overlap(a0, b0) {
        a1 == a0 && b1 == b0
    } else {
        let ra0 = a0.result.unwrap();
        let rb0 = b0.result.unwrap();
        let ra1 = a1.result.unwrap();
        let rb1 = b1.result.unwrap();
        &&& same_but_result(a0, a1)
        &&& same_but_result(b0, b1)
        &&& (if is_trigger {
            &&& ra1.collided@.len() == ra0.collided@.len() + 1
            &&& ra1.collided@.subrange(0, ra0.collided@.len() as int) == ra0.collided@
            &&& ra1.collided@.last().entity == ib
            &&& ra1.collided@.last().tag@ == tb_tag
            &&& rb1.collided@.len() == rb0.collided@.len() + 1
            &&& rb1.collided@.subrange(0, rb0.collided@.len() as int) == rb0.collided@
            &&& rb1.collided@.last().entity == ia
            &&& rb1.collided@.last().tag@ == ta_tag
        } else {
            ra1.collided@ == ra0.collided@ && rb1.collided@ == rb0.collided@
        })
        &&& (if is_collide {
            if s2x(a0, b0) < s2y(a0, b0) {
                &&& ra1.collision.y == ra0.collision.y
                &&& rb1.collision.y == rb0.collision.y
                &&& ra1.collision.x as int == merge_abs(
                    ra0.collision.x as int,
                    corr_x_for(a0, b0),
                )
                &&& rb1.collision.x as int == merge_abs(
                    rb0.collision.x as int,
                    -corr_x_for(a0, b0),
                )
            } else {
                &&& ra1.collision.x == ra0.collision.x
                &&& rb1.collision.x == rb0.collision.x
                &&& ra1.collision.y as int == merge_abs(
                    ra0.collision.y as int,
                    corr_y_for(a0, b0),
                )
                &&& rb1.collision.y as int == merge_abs(
                    rb0.collision.y as int,
                    -corr_y_for(a0, b0),
                )
            }
        } else {
            ra1.collision == ra0.collision && rb1.collision == rb0.collision
        })
    }
}

/// Narrow phase and bookkeeping for one broad-phase candidate pair:
/// re-check the overlap exactly, record the trigger contact on both sides,
/// and merge the push-apart correction by largest magnitude.
fn process_pair(
    world: &mut Vec<Entity>,
    ia: usize,
    ib: usize,
    tag_a: &String,
    tag_b: &String,
    is_collide: bool,
    is_trigger: bool,
)
    requires
        ia < old(world)@.len(),
        ib < old(world)@.len(),
        ia != ib,
        has_collider(old(world)@[ia as int]),
        has_collider(old(world)@[ib as int]),
        old(world)@[ia as int].result is Some,
        old(world)@[ib as int].result is Some,
        geom_ok(old(world)@[ia as int]),
        geom_ok(old(world)@[ib as int]),
        tag_view(old(world)@[ia as int]) == tag_a@,
        tag_view(old(world)@[ib as int]) == tag_b@,
        abs_spec(old(world)@[ia as int].result.unwrap().collision.x as int) <= COORD_LIMIT,
        abs_spec(old(world)@[ia as int].result.unwrap().collision.y as int) <= COORD_LIMIT,
        abs_spec(old(world)@[ib as int].result.unwrap().collision.x as int) <= COORD_LIMIT,
        abs_spec(old(world)@[ib as int].result.unwrap().collision.y as int) <= COORD_LIMIT,
    ensures
        final(world)@.len() == old(world)@.len(),
        forall|k: int|
            0 <= k < old(world)@.len() && k != ia as int && k != ib as int
                ==> #[trigger] final(world)@[k] == old(world)@[k],
        pair_step(
            old(world)@[ia as int],
            old(world)@[ib as int],
            final(world)@[ia as int],
            final(world)@[ib as int],
            tag_b@,
            tag_a@,
            ib as int,
            ia as int,
            is_collide,
            is_trigger,
        ),
{
    let apos = world[ia].pos;
    let bpos = world[ib].pos;
    let mut aw: i64 = 0;
    let mut ah: i64 = 0;
    let mut bw: i64 = 0;
    let mut bh: i64 = 0;
    match &world[ia].collider {
        Some(c) => {
            aw = c.width;
            ah = c.height;
        },
        None => {},
    }
    match &world[ib].collider {
        Some(c) => {
            bw = c.width;
            bh = c.height;
        },
        None => {},
    }
    let sx = sinking_x(apos.x, aw, bpos.x, bw);
    let sy = sinking_y(apos.y, ah, bpos.y, bh);
    if !(sx > 0 && sy > 0) {
        return ;
    }
    if is_trigger {
        let tb_clone = tag_b.clone();
        let ta_clone = tag_a.clone();
        match &mut world[ia].result {
            Some(r) => {
                r.collided.push(Collided { entity: ib, tag: tb_clone });
            },
            None => {},
        }
        match &mut world[ib].result {
            Some(r) => {
                r.collided.push(Collided { entity: ia, tag: ta_clone });
            },
            None => {},
        }
        proof {
            let ra0 = old(world)@[ia as int].result.unwrap();
            let rb0 = old(world)@[ib as int].result.unwrap();
            assert(world@[ia as int].result.unwrap().collided@.subrange(
                0,
                ra0.collided@.len() as int,
            ) =~= ra0.collided@);
            assert(world@[ib as int].result.unwrap().collided@.subrange(
                0,
                rb0.collided@.len() as int,
            ) =~= rb0.collided@);
        }
    }
    if is_collide {
        if sx < sy {
            let s = (sx + 1) / 2;
            proof {
                crate::num::lemma_div_nonneg(sx as int + 1, 2);
            }
            let ca = if bpos.x - apos.x > 0 {
                -s
            } else {
                s
            };
            match &mut world[ia].result {
                Some(r) => {
                    let cur = crate::num::abs_i64(r.collision.x);
                    if cur < s {
                        r.collision.x = ca;
                    }
                },
                None => {},
            }
            match &mut world[ib].result {
                Some(r) => {
                    let cur = crate::num::abs_i64(r.collision.x);
                    if cur < s {
                        r.collision.x = -ca;
                    }
                },
                None => {},
            }
        } else {
            let s = (sy + 1) / 2;
            proof {
                crate::num::lemma_div_nonneg(sy as int + 1, 2);
            }
            let ca = if bpos.y - apos.y > 0 {
                -s
            } else {
                s
            };
            match &mut world[ia].result {
                Some(r) => {
                    let cur = crate::num::abs_i64(r.collision.y);
                    if cur < s {
                        r.collision.y = ca;
                    }
                },
                None => {},
            }
            match &mut world[ib].result {
                Some(r) => {
                    let cur = crate::num::abs_i64(r.collision.y);
                    if cur < s {
                        r.collision.y = -ca;
                    }
                },
                None => {},
            }
        }
    }
}

/// `i` is the first-registered side of this entry's pair `(i, j)`: the tag
/// pair's first tag for distinct tags, the earlier entity for a
/// self-colliding tag.
pub open spec fn entry_i_is_a(
    w: Seq<Entity>,
    ta: Seq<char>,
    tb: Seq<char>,
    i: int,
    j: int,
) -> bool {
    if ta == tb {
        i < j
    } else {
        tag_view(w[i]) == ta
    }
}

/// The pair overlaps under this entry and resolves on the x axis.
pub open spec fn x_pair(w: Seq<Entity>, ta: Seq<char>, tb: Seq<char>, i: int, j: int) -> bool {
    &&& this_pair(w, ta, tb, i, j)
    &&& overlap(w[i], w[j])
    &&& s2x(w[i], w[j]) < s2y(w[i], w[j])
}

/// The pair overlaps under this entry and resolves on the y axis.
pub open spec fn y_pair(w: Seq<Entity>, ta: Seq<char>, tb: Seq<char>, i: int, j: int) -> bool {
    &&& this_pair(w, ta, tb, i, j)
    &&& overlap(w[i], w[j])
    &&& s2x(w[i], w[j]) >= s2y(w[i], w[j])
}

/// The pair overlaps under this entry.
pub open spec fn t_pair(w: Seq<Entity>, ta: Seq<char>, tb: Seq<char>, i: int, j: int) -> bool {
    &&& this_pair(w, ta, tb, i, j)
    &&& overlap(w[i], w[j])
}

/// The signed x push for entity `i` out of partner `j` under this entry.
pub open spec fn corr_x_entry(w: Seq<Entity>, ta: Seq<char>, tb: Seq<char>, i: int, j: int) -> int {
    if entry_i_is_a(w, ta, tb, i, j) {
        corr_x_for(w[i], w[j])
    } else {
        -corr_x_for(w[j], w[i])
    }
}

/// The signed y push for entity `i` out of partner `j` under this entry.
pub open spec fn corr_y_entry(w: Seq<Entity>, ta: Seq<char>, tb: Seq<char>, i: int, j: int) -> int {
    if entry_i_is_a(w, ta, tb, i, j) {
        corr_y_for(w[i], w[j])
    } else {
        -corr_y_for(w[j], w[i])
    }
}

/// The world index a grid entry stands for: side-A entries first, then
/// side B.
pub open spec fn item_of(ids_a: Seq<usize>, ids_b: Seq<usize>, k: int) -> int {
    if k < ids_a.len() {
        ids_a[k] as int
    } else {
        ids_b[k - ids_a.len()] as int
    }
}

/// The box a collider-bearing entity occupies: top-left corner (halving the
/// size rounds down) and extent, in fixed-point units.
pub open spec fn box_of(e: Entity) -> (int, int, int, int) {
    let c = e.collider.unwrap();
    (
        e.pos.x - c.width as int / 2,
        e.pos.y - c.height as int / 2,
        c.width as int,
        c.height as int,
    )
}

/// Grid entry `k` carries world index `item_of(k)` and the node its box
/// files under.
pub open spec fn grid_entry_ok(
    shape: (int, int, int, int, int),
    w: Seq<Entity>,
    ids_a: Seq<usize>,
    ids_b: Seq<usize>,
    g: Seq<crate::quadtree::QtEntry>,
    k: int,
) -> bool {
    &&& g[k].item == item_of(ids_a, ids_b, k) as u64
    &&& g[k].level as int == crate::quadtree::node_of(
        shape,
        box_of(w[item_of(ids_a, ids_b, k)]).0,
        box_of(w[item_of(ids_a, ids_b, k)]).1,
        box_of(w[item_of(ids_a, ids_b, k)]).2,
        box_of(w[item_of(ids_a, ids_b, k)]).3,
    ).0
    &&& g[k].space as int == crate::quadtree::node_of(
        shape,
        box_of(w[item_of(ids_a, ids_b, k)]).0,
        box_of(w[item_of(ids_a, ids_b, k)]).1,
        box_of(w[item_of(ids_a, ids_b, k)]).2,
        box_of(w[item_of(ids_a, ids_b, k)]).3,
    ).1
}

/// Strictly overlapping centered boxes have touching corner extents: what
/// the narrow phase accepts, the broad phase cannot separate.
proof fn lemma_overlap_corners(a: Entity, b: Entity)
    requires
        has_collider(a),
        has_collider(b),
        overlap(a, b),
    ensures
        box_of(a).0 <= box_of(b).0 + box_of(b).2,
        box_of(b).0 <= box_of(a).0 + box_of(a).2,
        box_of(a).1 <= box_of(b).1 + box_of(b).3,
        box_of(b).1 <= box_of(a).1 + box_of(a).3,
{
    let aw = a.collider.unwrap().width as int;
    let bw = b.collider.unwrap().width as int;
    let ah = a.collider.unwrap().height as int;
    let bh = b.collider.unwrap().height as int;
    vstd::arithmetic::div_mod::lemma_fundamental_div_mod(aw, 2);
    vstd::arithmetic::div_mod::lemma_fundamental_div_mod(bw, 2);
    vstd::arithmetic::div_mod::lemma_fundamental_div_mod(ah, 2);
    vstd::arithmetic::div_mod::lemma_fundamental_div_mod(bh, 2);
    vstd::arithmetic::div_mod::lemma_mod_division_less_than_divisor(aw, 2);
    vstd::arithmetic::div_mod::lemma_mod_division_less_than_divisor(bw, 2);
    vstd::arithmetic::div_mod::lemma_mod_division_less_than_divisor(ah, 2);
    vstd::arithmetic::div_mod::lemma_mod_division_less_than_divisor(bh, 2);
}

/// The partner `j` is recorded in `i`'s trigger list.
pub open spec fn recorded(w: Seq<Entity>, i: int, j: int) -> bool {
    exists|k: int|
        0 <= k < w[i].result.unwrap().collided@.len() && (#[trigger] w[i].result.unwrap().collided@[k]).entity as int == j
}

/// How far one entry's pass may have taken entity `i`'s correction vector
/// at any point during the pass, relative to the pre-pass world `w0`.
pub open spec fn entry_sofar_phys(
    w0: Seq<Entity>,
    w: Seq<Entity>,
    ta: Seq<char>,
    tb: Seq<char>,
    ic: bool,
    i: int,
) -> bool {
    let r0 = w0[i].result.unwrap();
    let r = w[i].result.unwrap();
    &&& same_but_result(w0[i], w[i])
    &&& abs_spec(r.collision.x as int) <= COORD_LIMIT
    &&& abs_spec(r.collision.y as int) <= COORD_LIMIT
    &&& abs_spec(r.collision.x as int) >= abs_spec(r0.collision.x as int)
    &&& abs_spec(r.collision.y as int) >= abs_spec(r0.collision.y as int)
    &&& (r.collision.x == r0.collision.x || (ic && exists|j: int|
        #[trigger] x_pair(w0, ta, tb, i, j) && r.collision.x as int == corr_x_entry(
            w0,
            ta,
            tb,
            i,
            j,
        )))
    &&& (r.collision.y == r0.collision.y || (ic && exists|j: int|
        #[trigger] y_pair(w0, ta, tb, i, j) && r.collision.y as int == corr_y_entry(
            w0,
            ta,
            tb,
            i,
            j,
        )))
}

/// How far one entry's pass may have taken entity `i`'s trigger list at any
/// point during the pass.
pub open spec fn entry_sofar_list(
    w0: Seq<Entity>,
    w: Seq<Entity>,
    ta: Seq<char>,
    tb: Seq<char>,
    it: bool,
    i: int,
) -> bool {
    let r0 = w0[i].result.unwrap();
    let r = w[i].result.unwrap();
    &&& r.collided@.len() >= r0.collided@.len()
    &&& r.collided@.subrange(0, r0.collided@.len() as int) == r0.collided@
    &&& (!it ==> r.collided@.len() == r0.collided@.len())
    &&& forall|k: int| #![trigger r.collided@[k]]
        r0.collided@.len() <= k < r.collided@.len() ==> (t_pair(
            w0,
            ta,
            tb,
            i,
            (r.collided@[k]).entity as int,
        ) && r.collided@[k].tag@ == tag_view(w0[(r.collided@[k]).entity as int]))
    &&& forall|k1: int, k2: int| #![trigger r.collided@[k1], r.collided@[k2]]
        r0.collided@.len() <= k1 < k2 < r.collided@.len() ==> (r.collided@[k1]).entity != (
        r.collided@[k2]).entity
}

/// The running per-entity state of one entry's pass.
pub open spec fn entry_sofar_ok(
    w0: Seq<Entity>,
    w: Seq<Entity>,
    ta: Seq<char>,
    tb: Seq<char>,
    ic: bool,
    it: bool,
    i: int,
) -> bool {
    entry_sofar_phys(w0, w, ta, tb, ic, i) && entry_sofar_list(w0, w, ta, tb, it, i)
}

/// What one entry's pass promises for entity `i` when it is done: the
/// running state above, plus every due pair accounted for.
pub open spec fn entry_result_ok(
    w0: Seq<Entity>,
    w: Seq<Entity>,
    ta: Seq<char>,
    tb: Seq<char>,
    ic: bool,
    it: bool,
    i: int,
) -> bool {
    let r = w[i].result.unwrap();
    &&& entry_sofar_ok(w0, w, ta, tb, ic, it, i)
    &&& (ic ==> forall|j: int|
        #[trigger] x_pair(w0, ta, tb, i, j) ==> sink_x(w0[i], w0[j]) <= abs_spec(
            r.collision.x as int,
        ))
    &&& (ic ==> forall|j: int|
        #[trigger] y_pair(w0, ta, tb, i, j) ==> sink_y(w0[i], w0[j]) <= abs_spec(
            r.collision.y as int,
        ))
    &&& (it ==> forall|j: int| #[trigger] t_pair(w0, ta, tb, i, j) ==> recorded(w, i, j))
}

/// The pair at position `u` of the broad-phase output has been fully
/// absorbed into the running results (skipped same-side pairs count as
/// absorbed).
pub open spec fn pair_done(
    w0: Seq<Entity>,
    w: Seq<Entity>,
    ta: Seq<char>,
    tb: Seq<char>,
    ic: bool,
    it: bool,
    ids_a: Seq<usize>,
    ids_b: Seq<usize>,
    pr: (usize, usize),
    same_tags: bool,
) -> bool {
    let i = item_of(ids_a, ids_b, pr.0 as int);
    let j = item_of(ids_a, ids_b, pr.1 as int);
    let adm = same_tags || (((pr.0 as int) < ids_a.len()) != ((pr.1 as int) < ids_a.len()));
    adm ==> {
        &&& (ic && x_pair(w0, ta, tb, i, j) ==> sink_x(w0[i], w0[j]) <= abs_spec(
            w[i].result.unwrap().collision.x as int,
        ) && sink_x(w0[i], w0[j]) <= abs_spec(w[j].result.unwrap().collision.x as int))
        &&& (ic && y_pair(w0, ta, tb, i, j) ==> sink_y(w0[i], w0[j]) <= abs_spec(
            w[i].result.unwrap().collision.y as int,
        ) && sink_y(w0[i], w0[j]) <= abs_spec(w[j].result.unwrap().collision.y as int))
        &&& (it && t_pair(w0, ta, tb, i, j) ==> recorded(w, i, j) && recorded(w, j, i))
    }
}

/// The pair at position `u` has not been touched yet: neither side is in
/// the other's freshly appended trigger records.
pub open spec fn pair_pending(
    w0: Seq<Entity>,
    w: Seq<Entity>,
    ids_a: Seq<usize>,
    ids_b: Seq<usize>,
    pr: (usize, usize),
    same_tags: bool,
) -> bool {
    let i = item_of(ids_a, ids_b, pr.0 as int);
    let j = item_of(ids_a, ids_b, pr.1 as int);
    let adm = same_tags || (((pr.0 as int) < ids_a.len()) != ((pr.1 as int) < ids_a.len()));
    adm ==> {
        &&& forall|k: int|
            w0[i].result.unwrap().collided@.len() <= k < w[i].result.unwrap().collided@.len()
                ==> (#[trigger] w[i].result.unwrap().collided@[k]).entity as int != j
        &&& forall|k: int|
            w0[j].result.unwrap().collided@.len() <= k < w[j].result.unwrap().collided@.len()
                ==> (#[trigger] w[j].result.unwrap().collided@[k]).entity as int != i
    }
}

/// The narrow-phase quantities are symmetric in the two entities.
proof fn lemma_pair_sym(w: Seq<Entity>, ta: Seq<char>, tb: Seq<char>, i: int, j: int)
    requires
        0 <= i < w.len(),
        0 <= j < w.len(),
    ensures
        x_pair(w, ta, tb, i, j) == x_pair(w, ta, tb, j, i),
        y_pair(w, ta, tb, i, j) == y_pair(w, ta, tb, j, i),
        t_pair(w, ta, tb, i, j) == t_pair(w, ta, tb, j, i),
        sink_x(w[i], w[j]) == sink_x(w[j], w[i]),
        sink_y(w[i], w[j]) == sink_y(w[j], w[i]),
{
}

/// An entity untouched by a step keeps its running list state.
proof fn lemma_sofar_unchanged(
    w0: Seq<Entity>,
    wa: Seq<Entity>,
    wb: Seq<Entity>,
    ta: Seq<char>,
    tb: Seq<char>,
    ic: bool,
    it: bool,
    i: int,
)
    requires
        wb[i] == wa[i],
        entry_sofar_phys(w0, wa, ta, tb, ic, i),
        entry_sofar_list(w0, wa, ta, tb, it, i),
    ensures
        entry_sofar_phys(w0, wb, ta, tb, ic, i),
        entry_sofar_list(w0, wb, ta, tb, it, i),
{
    assert(wb[i].result.unwrap() == wa[i].result.unwrap());
    assert forall|k: int| #![trigger wb[i].result.unwrap().collided@[k]]
        w0[i].result.unwrap().collided@.len() <= k < wb[i].result.unwrap().collided@.len() implies (
    t_pair(
        w0,
        ta,
        tb,
        i,
        (wb[i].result.unwrap().collided@[k]).entity as int,
    ) && wb[i].result.unwrap().collided@[k].tag@ == tag_view(
        w0[(wb[i].result.unwrap().collided@[k]).entity as int],
    )) by {
        assert(wb[i].result.unwrap().collided@[k] == wa[i].result.unwrap().collided@[k]);
        assert(t_pair(
            w0,
            ta,
            tb,
            i,
            (wa[i].result.unwrap().collided@[k]).entity as int,
        ) && wa[i].result.unwrap().collided@[k].tag@ == tag_view(
            w0[(wa[i].result.unwrap().collided@[k]).entity as int],
        ));
    }
    assert forall|k1: int, k2: int|
        #![trigger wb[i].result.unwrap().collided@[k1], wb[i].result.unwrap().collided@[k2]]
        w0[i].result.unwrap().collided@.len() <= k1 < k2
            < wb[i].result.unwrap().collided@.len() implies (
    wb[i].result.unwrap().collided@[k1]).entity != (wb[i].result.unwrap().collided@[k2]).entity by {
        assert(wb[i].result.unwrap().collided@[k1] == wa[i].result.unwrap().collided@[k1]);
        assert(wb[i].result.unwrap().collided@[k2] == wa[i].result.unwrap().collided@[k2]);
        assert((wa[i].result.unwrap().collided@[k1]).entity != (
        wa[i].result.unwrap().collided@[k2]).entity);
    }
}

/// One processed pair advances every running per-entity state and settles
/// its own bookkeeping.
#[verifier::rlimit(100)]
#[verifier::spinoff_prover]
proof fn lemma_entry_step(
    w0: Seq<Entity>,
    wpre: Seq<Entity>,
    wpost: Seq<Entity>,
    ta: Seq<char>,
    tb: Seq<char>,
    ic: bool,
    it: bool,
    ia: int,
    ib: int,
)
    requires
        w0.len() == wpre.len(),
        wpre.len() == wpost.len(),
        this_pair(w0, ta, tb, ia, ib),
        entry_i_is_a(w0, ta, tb, ia, ib),
        geom_ok(w0[ia]),
        geom_ok(w0[ib]),
        forall|i: int|
            0 <= i < w0.len() && has_collider(#[trigger] w0[i]) ==> entry_sofar_ok(
                w0,
                wpre,
                ta,
                tb,
                ic,
                it,
                i,
            ),
        forall|i: int|
            0 <= i < w0.len() && !has_collider(#[trigger] w0[i]) ==> wpre[i] == w0[i],
        forall|k: int| 0 <= k < wpre.len() && k != ia && k != ib ==> #[trigger] wpost[k] == wpre[k],
        pair_step(
            wpre[ia],
            wpre[ib],
            wpost[ia],
            wpost[ib],
            tag_view(w0[ib]),
            tag_view(w0[ia]),
            ib,
            ia,
            ic,
            it,
        ),
        forall|k: int|
            w0[ia].result.unwrap().collided@.len() <= k
                < wpre[ia].result.unwrap().collided@.len() ==> (#[trigger] wpre[ia].result.unwrap().collided@[k]).entity as int != ib,
        forall|k: int|
            w0[ib].result.unwrap().collided@.len() <= k
                < wpre[ib].result.unwrap().collided@.len() ==> (#[trigger] wpre[ib].result.unwrap().collided@[k]).entity as int != ia,
    ensures
        forall|i: int|
            0 <= i < w0.len() && has_collider(#[trigger] w0[i]) ==> entry_sofar_ok(
                w0,
                wpost,
                ta,
                tb,
                ic,
                it,
                i,
            ),
        forall|i: int|
            0 <= i < w0.len() && !has_collider(#[trigger] w0[i]) ==> wpost[i] == w0[i],
        ic && x_pair(w0, ta, tb, ia, ib) ==> sink_x(w0[ia], w0[ib]) <= abs_spec(
            wpost[ia].result.unwrap().collision.x as int,
        ) && sink_x(w0[ia], w0[ib]) <= abs_spec(wpost[ib].result.unwrap().collision.x as int),
        ic && y_pair(w0, ta, tb, ia, ib) ==> sink_y(w0[ia], w0[ib]) <= abs_spec(
            wpost[ia].result.unwrap().collision.y as int,
        ) && sink_y(w0[ia], w0[ib]) <= abs_spec(wpost[ib].result.unwrap().collision.y as int),
        it && t_pair(w0, ta, tb, ia, ib) ==> recorded(wpost, ia, ib) && recorded(wpost, ib, ia),
        forall|i: int|
            0 <= i < w0.len() && has_collider(#[trigger] w0[i]) ==> {
                let rpre = wpre[i].result.unwrap();
                let rpost = wpost[i].result.unwrap();
                &&& abs_spec(rpost.collision.x as int) >= abs_spec(rpre.collision.x as int)
                &&& abs_spec(rpost.collision.y as int) >= abs_spec(rpre.collision.y as int)
                &&& rpost.collided@.len() >= rpre.collided@.len()
                &&& rpost.collided@.subrange(0, rpre.collided@.len() as int) == rpre.collided@
                &&& forall|k: int|
                    rpre.collided@.len() <= k < rpost.collided@.len() ==> (i == ia && (
                    #[trigger] rpost.collided@[k]).entity as int == ib) || (i == ib
                        && rpost.collided@[k].entity as int == ia)
            },
{
    let a0 = wpre[ia];
    let b0 = wpre[ib];
    let a1 = wpost[ia];
    let b1 = wpost[ib];
    assert(entry_sofar_ok(w0, wpre, ta, tb, ic, it, ia));
    assert(entry_sofar_ok(w0, wpre, ta, tb, ic, it, ib));
    assert(a0.pos == w0[ia].pos && a0.collider == w0[ia].collider);
    assert(b0.pos == w0[ib].pos && b0.collider == w0[ib].collider);
    assert(s2x(a0, b0) == s2x(w0[ia], w0[ib]));
    assert(s2y(a0, b0) == s2y(w0[ia], w0[ib]));
    assert(overlap(a0, b0) == overlap(w0[ia], w0[ib]));
    if !overlap(a0, b0) {
        assert(a1 == a0 && b1 == b0);
    } else {
        assert(sink_x(a0, b0) == sink_x(w0[ia], w0[ib]));
        assert(sink_y(a0, b0) == sink_y(w0[ia], w0[ib]));
        assert(corr_x_for(a0, b0) == corr_x_for(w0[ia], w0[ib]));
        assert(corr_y_for(a0, b0) == corr_y_for(w0[ia], w0[ib]));
        assert(corr_x_entry(w0, ta, tb, ia, ib) == corr_x_for(w0[ia], w0[ib]));
        assert(!entry_i_is_a(w0, ta, tb, ib, ia));
        assert(corr_x_entry(w0, ta, tb, ib, ia) == -corr_x_for(w0[ia], w0[ib]));
        assert(corr_y_entry(w0, ta, tb, ia, ib) == corr_y_for(w0[ia], w0[ib]));
        assert(corr_y_entry(w0, ta, tb, ib, ia) == -corr_y_for(w0[ia], w0[ib]));
        let wa = w0[ia].collider.unwrap().width as int;
        let wb = w0[ib].collider.unwrap().width as int;
        let ha = w0[ia].collider.unwrap().height as int;
        let hb = w0[ib].collider.unwrap().height as int;
        assert(s2x(w0[ia], w0[ib]) <= wa + wb);
        assert(s2y(w0[ia], w0[ib]) <= ha + hb);
        assert(0 < sink_x(w0[ia], w0[ib]) <= COORD_LIMIT);
        assert(0 < sink_y(w0[ia], w0[ib]) <= COORD_LIMIT);
        assert(x_pair(w0, ta, tb, ia, ib) == (s2x(w0[ia], w0[ib]) < s2y(w0[ia], w0[ib])));
        let r0a = w0[ia].result.unwrap();
        let r0b = w0[ib].result.unwrap();
        let rpa = a0.result.unwrap();
        let rpb = b0.result.unwrap();
        let rna = a1.result.unwrap();
        let rnb = b1.result.unwrap();
        if ic {
            if s2x(a0, b0) < s2y(a0, b0) {
                assert(x_pair(w0, ta, tb, ia, ib));
                assert(x_pair(w0, ta, tb, ib, ia)) by {
                    lemma_pair_sym(w0, ta, tb, ia, ib);
                }
                assert(rna.collision.x as int == merge_abs(
                    rpa.collision.x as int,
                    corr_x_entry(w0, ta, tb, ia, ib),
                ));
                assert(rnb.collision.x as int == merge_abs(
                    rpb.collision.x as int,
                    corr_x_entry(w0, ta, tb, ib, ia),
                ));
                assert(abs_spec(corr_x_entry(w0, ta, tb, ia, ib)) == sink_x(w0[ia], w0[ib]));
                assert(abs_spec(corr_x_entry(w0, ta, tb, ib, ia)) == sink_x(w0[ia], w0[ib]));
            } else {
                assert(y_pair(w0, ta, tb, ia, ib));
                assert(y_pair(w0, ta, tb, ib, ia)) by {
                    lemma_pair_sym(w0, ta, tb, ia, ib);
                }
                assert(rna.collision.y as int == merge_abs(
                    rpa.collision.y as int,
                    corr_y_entry(w0, ta, tb, ia, ib),
                ));
                assert(rnb.collision.y as int == merge_abs(
                    rpb.collision.y as int,
                    corr_y_entry(w0, ta, tb, ib, ia),
                ));
                assert(abs_spec(corr_y_entry(w0, ta, tb, ia, ib)) == sink_y(w0[ia], w0[ib]));
                assert(abs_spec(corr_y_entry(w0, ta, tb, ib, ia)) == sink_y(w0[ia], w0[ib]));
            }
        }
        if it {
            assert(rna.collided@.len() == rpa.collided@.len() + 1);
            assert(rnb.collided@.len() == rpb.collided@.len() + 1);
            assert(rna.collided@.subrange(0, r0a.collided@.len() as int) =~= rpa.collided@.subrange(
                0,
                r0a.collided@.len() as int,
            )) by {
                assert forall|k: int| 0 <= k < r0a.collided@.len() implies rna.collided@[k]
                    == rpa.collided@[k] by {
                    assert(rna.collided@.subrange(0, rpa.collided@.len() as int)[k]
                        == rna.collided@[k]);
                }
            }
            assert(rnb.collided@.subrange(0, r0b.collided@.len() as int) =~= rpb.collided@.subrange(
                0,
                r0b.collided@.len() as int,
            )) by {
                assert forall|k: int| 0 <= k < r0b.collided@.len() implies rnb.collided@[k]
                    == rpb.collided@[k] by {
                    assert(rnb.collided@.subrange(0, rpb.collided@.len() as int)[k]
                        == rnb.collided@[k]);
                }
            }
            assert(t_pair(w0, ta, tb, ia, ib));
            assert(t_pair(w0, ta, tb, ib, ia)) by {
                lemma_pair_sym(w0, ta, tb, ia, ib);
            }
            assert forall|k: int| #![trigger rna.collided@[k]]
                r0a.collided@.len() <= k < rna.collided@.len() implies (t_pair(
                w0,
                ta,
                tb,
                ia,
                (rna.collided@[k]).entity as int,
            ) && rna.collided@[k].tag@ == tag_view(w0[(rna.collided@[k]).entity as int])) by {
                if k < rpa.collided@.len() {
                    assert(rna.collided@.subrange(0, rpa.collided@.len() as int)[k]
                        == rna.collided@[k]);
                    assert(rna.collided@[k] == rpa.collided@[k]);
                } else {
                    assert(rna.collided@[k] == rna.collided@.last());
                }
            }
            assert forall|k: int| #![trigger rnb.collided@[k]]
                r0b.collided@.len() <= k < rnb.collided@.len() implies (t_pair(
                w0,
                ta,
                tb,
                ib,
                (rnb.collided@[k]).entity as int,
            ) && rnb.collided@[k].tag@ == tag_view(w0[(rnb.collided@[k]).entity as int])) by {
                if k < rpb.collided@.len() {
                    assert(rnb.collided@.subrange(0, rpb.collided@.len() as int)[k]
                        == rnb.collided@[k]);
                    assert(rnb.collided@[k] == rpb.collided@[k]);
                } else {
                    assert(rnb.collided@[k] == rnb.collided@.last());
                }
            }
            assert forall|k1: int, k2: int| #![trigger rna.collided@[k1], rna.collided@[k2]]
                r0a.collided@.len() <= k1 < k2 < rna.collided@.len() implies (
            rna.collided@[k1]).entity != (rna.collided@[k2]).entity by {
                assert(rna.collided@.subrange(0, rpa.collided@.len() as int)[k1]
                    == rna.collided@[k1]);
                if k2 < rpa.collided@.len() {
                    assert(rna.collided@.subrange(0, rpa.collided@.len() as int)[k2]
                        == rna.collided@[k2]);
                } else {
                    assert(rna.collided@[k2] == rna.collided@.last());
                    assert((rna.collided@[k1]).entity as int != ib);
                }
            }
            assert forall|k1: int, k2: int| #![trigger rnb.collided@[k1], rnb.collided@[k2]]
                r0b.collided@.len() <= k1 < k2 < rnb.collided@.len() implies (
            rnb.collided@[k1]).entity != (rnb.collided@[k2]).entity by {
                assert(rnb.collided@.subrange(0, rpb.collided@.len() as int)[k1]
                    == rnb.collided@[k1]);
                if k2 < rpb.collided@.len() {
                    assert(rnb.collided@.subrange(0, rpb.collided@.len() as int)[k2]
                        == rnb.collided@[k2]);
                } else {
                    assert(rnb.collided@[k2] == rnb.collided@.last());
                    assert((rnb.collided@[k1]).entity as int != ia);
                }
            }
            assert(rna.collided@[rna.collided@.len() - 1].entity as int == ib);
            assert(recorded(wpost, ia, ib));
            assert(rnb.collided@[rnb.collided@.len() - 1].entity as int == ia);
            assert(recorded(wpost, ib, ia));
        }
        let rr0 = w0[ia].result.unwrap();
        assert(same_but_result(w0[ia], wpost[ia]));
        assert(abs_spec(rna.collision.x as int) <= COORD_LIMIT);
        assert(abs_spec(rna.collision.y as int) <= COORD_LIMIT);
        assert(abs_spec(rna.collision.x as int) >= abs_spec(rr0.collision.x as int));
        assert(abs_spec(rna.collision.y as int) >= abs_spec(rr0.collision.y as int));
        assert(rna.collision.x == rr0.collision.x || (ic && exists|j: int|
            #[trigger] x_pair(w0, ta, tb, ia, j) && rna.collision.x as int == corr_x_entry(
                w0,
                ta,
                tb,
                ia,
                j,
            )));
        assert(rna.collision.y == rr0.collision.y || (ic && exists|j: int|
            #[trigger] y_pair(w0, ta, tb, ia, j) && rna.collision.y as int == corr_y_entry(
                w0,
                ta,
                tb,
                ia,
                j,
            )));
        assert(rna.collided@.len() >= rr0.collided@.len());
        assert(rna.collided@.subrange(0, rr0.collided@.len() as int) == rr0.collided@);
        if !it {
            assert(rna.collided@ == rpa.collided@);
            assert(rnb.collided@ == rpb.collided@);
            assert(entry_sofar_list(w0, wpre, ta, tb, it, ia));
            assert(entry_sofar_list(w0, wpre, ta, tb, it, ib));
            assert(rpa.collided@.len() == r0a.collided@.len());
            assert(rpb.collided@.len() == r0b.collided@.len());
        }
        assert(entry_sofar_phys(w0, wpost, ta, tb, ic, ia));
        assert(entry_sofar_phys(w0, wpost, ta, tb, ic, ib));
        assert(entry_sofar_list(w0, wpost, ta, tb, it, ia));
        assert(entry_sofar_list(w0, wpost, ta, tb, it, ib));
    }
    assert forall|i: int|
        0 <= i < w0.len() && has_collider(#[trigger] w0[i]) implies entry_sofar_ok(
        w0,
        wpost,
        ta,
        tb,
        ic,
        it,
        i,
    ) by {
        if i != ia && i != ib {
            assert(wpost[i] == wpre[i]);
            assert(entry_sofar_ok(w0, wpre, ta, tb, ic, it, i));
            lemma_sofar_unchanged(w0, wpre, wpost, ta, tb, ic, it, i);
        } else if !overlap(wpre[ia], wpre[ib]) {
            assert(wpost[ia] == wpre[ia] && wpost[ib] == wpre[ib]);
            assert(entry_sofar_ok(w0, wpre, ta, tb, ic, it, i));
            lemma_sofar_unchanged(w0, wpre, wpost, ta, tb, ic, it, i);
        }
    }
    assert forall|i: int|
        0 <= i < w0.len() && has_collider(#[trigger] w0[i]) implies {
        let rpre = wpre[i].result.unwrap();
        let rpost = wpost[i].result.unwrap();
        &&& abs_spec(rpost.collision.x as int) >= abs_spec(rpre.collision.x as int)
        &&& abs_spec(rpost.collision.y as int) >= abs_spec(rpre.collision.y as int)
        &&& rpost.collided@.len() >= rpre.collided@.len()
        &&& rpost.collided@.subrange(0, rpre.collided@.len() as int) == rpre.collided@
        &&& forall|k: int|
            rpre.collided@.len() <= k < rpost.collided@.len() ==> (i == ia && (
            #[trigger] rpost.collided@[k]).entity as int == ib) || (i == ib
                && rpost.collided@[k].entity as int == ia)
    } by {
        let rpre = wpre[i].result.unwrap();
        let rpost = wpost[i].result.unwrap();
        if i != ia && i != ib {
            assert(wpost[i] == wpre[i]);
            assert(rpost.collided@.subrange(0, rpre.collided@.len() as int) =~= rpre.collided@);
        } else if !overlap(wpre[ia], wpre[ib]) {
            assert(wpost[ia] == wpre[ia] && wpost[ib] == wpre[ib]);
            assert(rpost.collided@.subrange(0, rpre.collided@.len() as int) =~= rpre.collided@);
        } else {
            if !it {
                assert(rpost.collided@ == rpre.collided@);
                assert(rpost.collided@.subrange(0, rpre.collided@.len() as int)
                    =~= rpre.collided@);
            } else {
                assert(rpost.collided@.len() == rpre.collided@.len() + 1);
                assert(rpost.collided@.last().entity as int == (if i == ia { ib } else { ia }));
            }
        }
    }
}

/// Two distinct sorted broad-phase pairs name two distinct unordered
/// entity pairs.
proof fn lemma_mapped_distinct(
    ids_a: Seq<usize>,
    ids_b: Seq<usize>,
    pr1: (usize, usize),
    pr2: (usize, usize),
)
    requires
        forall|p1: int, p2: int| 0 <= p1 < p2 < ids_a.len() ==> ids_a[p1] < ids_a[p2],
        forall|p1: int, p2: int| 0 <= p1 < p2 < ids_b.len() ==> ids_b[p1] < ids_b[p2],
        forall|p1: int, p2: int|
            0 <= p1 < ids_a.len() && 0 <= p2 < ids_b.len() ==> ids_a[p1] != ids_b[p2],
        (pr1.0 as int) < (pr1.1 as int) < ids_a.len() + ids_b.len(),
        (pr2.0 as int) < (pr2.1 as int) < ids_a.len() + ids_b.len(),
        pr1 != pr2,
    ensures
        !(item_of(ids_a, ids_b, pr1.0 as int) == item_of(ids_a, ids_b, pr2.0 as int) && item_of(
            ids_a,
            ids_b,
            pr1.1 as int,
        ) == item_of(ids_a, ids_b, pr2.1 as int)),
        !(item_of(ids_a, ids_b, pr1.0 as int) == item_of(ids_a, ids_b, pr2.1 as int) && item_of(
            ids_a,
            ids_b,
            pr1.1 as int,
        ) == item_of(ids_a, ids_b, pr2.0 as int)),
{
    assert forall|k1: int, k2: int|
        0 <= k1 < ids_a.len() + ids_b.len() && 0 <= k2 < ids_a.len() + ids_b.len() && k1
            != k2 implies item_of(ids_a, ids_b, k1) != item_of(ids_a, ids_b, k2) by {
        if k1 < ids_a.len() && k2 < ids_a.len() {
            if k1 < k2 {
                assert(ids_a[k1] < ids_a[k2]);
            } else {
                assert(ids_a[k2] < ids_a[k1]);
            }
        } else if k1 >= ids_a.len() && k2 >= ids_a.len() {
            if k1 < k2 {
                assert(ids_b[k1 - ids_a.len()] < ids_b[k2 - ids_a.len()]);
            } else {
                assert(ids_b[k2 - ids_a.len()] < ids_b[k1 - ids_a.len()]);
            }
        }
    }
}

/// Settled pairs stay settled: magnitudes only grow and records persist.
proof fn lemma_done_persists(
    w0: Seq<Entity>,
    wpre: Seq<Entity>,
    wpost: Seq<Entity>,
    ta: Seq<char>,
    tb: Seq<char>,
    ic: bool,
    it: bool,
    ids_a: Seq<usize>,
    ids_b: Seq<usize>,
    pr: (usize, usize),
    same_tags: bool,
)
    requires
        w0.len() == wpre.len() == wpost.len(),
        (pr.0 as int) < (pr.1 as int) < ids_a.len() + ids_b.len(),
        0 <= item_of(ids_a, ids_b, pr.0 as int) < w0.len(),
        0 <= item_of(ids_a, ids_b, pr.1 as int) < w0.len(),
        has_collider(w0[item_of(ids_a, ids_b, pr.0 as int)]),
        has_collider(w0[item_of(ids_a, ids_b, pr.1 as int)]),
        forall|i: int|
            0 <= i < w0.len() && has_collider(#[trigger] w0[i]) ==> {
                let rpre = wpre[i].result.unwrap();
                let rpost = wpost[i].result.unwrap();
                &&& wpre[i].result is Some
                &&& wpost[i].result is Some
                &&& abs_spec(rpost.collision.x as int) >= abs_spec(rpre.collision.x as int)
                &&& abs_spec(rpost.collision.y as int) >= abs_spec(rpre.collision.y as int)
                &&& rpost.collided@.len() >= rpre.collided@.len()
                &&& rpost.collided@.subrange(0, rpre.collided@.len() as int) == rpre.collided@
            },
        pair_done(w0, wpre, ta, tb, ic, it, ids_a, ids_b, pr, same_tags),
    ensures
        pair_done(w0, wpost, ta, tb, ic, it, ids_a, ids_b, pr, same_tags),
{
    let i = item_of(ids_a, ids_b, pr.0 as int);
    let j = item_of(ids_a, ids_b, pr.1 as int);
    let adm = same_tags || (((pr.0 as int) < ids_a.len()) != ((pr.1 as int) < ids_a.len()));
    if adm {
        if it && t_pair(w0, ta, tb, i, j) {
            assert(recorded(wpre, i, j));
            let k = choose|k: int|
                0 <= k < wpre[i].result.unwrap().collided@.len() && (
                #[trigger] wpre[i].result.unwrap().collided@[k]).entity as int == j;
            assert(wpost[i].result.unwrap().collided@.subrange(
                0,
                wpre[i].result.unwrap().collided@.len() as int,
            )[k] == wpre[i].result.unwrap().collided@[k]);
            assert(wpost[i].result.unwrap().collided@[k].entity as int == j);
            assert(recorded(wpost, i, j));
            let k2 = choose|k2: int|
                0 <= k2 < wpre[j].result.unwrap().collided@.len() && (
                #[trigger] wpre[j].result.unwrap().collided@[k2]).entity as int == i;
            assert(wpost[j].result.unwrap().collided@.subrange(
                0,
                wpre[j].result.unwrap().collided@.len() as int,
            )[k2] == wpre[j].result.unwrap().collided@[k2]);
            assert(wpost[j].result.unwrap().collided@[k2].entity as int == i);
            assert(recorded(wpost, j, i));
        }
    }
}

/// Untouched pairs stay untouched: the only fresh records name the pair
/// that was just processed.
proof fn lemma_pending_persists(
    w0: Seq<Entity>,
    wpre: Seq<Entity>,
    wpost: Seq<Entity>,
    ids_a: Seq<usize>,
    ids_b: Seq<usize>,
    pr: (usize, usize),
    same_tags: bool,
    ia: int,
    ib: int,
)
    requires
        w0.len() == wpre.len() == wpost.len(),
        (pr.0 as int) < (pr.1 as int) < ids_a.len() + ids_b.len(),
        0 <= item_of(ids_a, ids_b, pr.0 as int) < w0.len(),
        0 <= item_of(ids_a, ids_b, pr.1 as int) < w0.len(),
        has_collider(w0[item_of(ids_a, ids_b, pr.0 as int)]),
        has_collider(w0[item_of(ids_a, ids_b, pr.1 as int)]),
        forall|i: int|
            0 <= i < w0.len() && has_collider(#[trigger] w0[i]) ==> {
                let rpre = wpre[i].result.unwrap();
                let rpost = wpost[i].result.unwrap();
                &&& wpre[i].result is Some
                &&& wpost[i].result is Some
                &&& rpre.collided@.len() >= w0[i].result.unwrap().collided@.len()
                &&& rpost.collided@.len() >= rpre.collided@.len()
                &&& rpost.collided@.subrange(0, rpre.collided@.len() as int) == rpre.collided@
                &&& forall|k: int|
                    rpre.collided@.len() <= k < rpost.collided@.len() ==> (i == ia && (
                    #[trigger] rpost.collided@[k]).entity as int == ib) || (i == ib
                        && rpost.collided@[k].entity as int == ia)
            },
        pair_pending(w0, wpre, ids_a, ids_b, pr, same_tags),
        !(item_of(ids_a, ids_b, pr.0 as int) == ia && item_of(ids_a, ids_b, pr.1 as int) == ib),
        !(item_of(ids_a, ids_b, pr.0 as int) == ib && item_of(ids_a, ids_b, pr.1 as int) == ia),
    ensures
        pair_pending(w0, wpost, ids_a, ids_b, pr, same_tags),
{
    let i = item_of(ids_a, ids_b, pr.0 as int);
    let j = item_of(ids_a, ids_b, pr.1 as int);
    let adm = same_tags || (((pr.0 as int) < ids_a.len()) != ((pr.1 as int) < ids_a.len()));
    if adm {
        assert forall|k: int|
            w0[i].result.unwrap().collided@.len() <= k
                < wpost[i].result.unwrap().collided@.len() implies (
        #[trigger] wpost[i].result.unwrap().collided@[k]).entity as int != j by {
            if k < wpre[i].result.unwrap().collided@.len() {
                assert(wpost[i].result.unwrap().collided@.subrange(
                    0,
                    wpre[i].result.unwrap().collided@.len() as int,
                )[k] == wpre[i].result.unwrap().collided@[k]);
            }
        }
        assert forall|k: int|
            w0[j].result.unwrap().collided@.len() <= k
                < wpost[j].result.unwrap().collided@.len() implies (
        #[trigger] wpost[j].result.unwrap().collided@[k]).entity as int != i by {
            if k < wpre[j].result.unwrap().collided@.len() {
                assert(wpost[j].result.unwrap().collided@.subrange(
                    0,
                    wpre[j].result.unwrap().collided@.len() as int,
                )[k] == wpre[j].result.unwrap().collided@[k]);
            }
        }
    }
}

impl CollisionSystem {
    /// After the pair walk, every due pair of this entry has been absorbed
    /// into entity `i`'s result: the broad phase reported it, and the walk
    /// settled it.
    #[verifier::rlimit(100)]
    proof fn lemma_entry_complete(
        &self,
        w0: Seq<Entity>,
        w: Seq<Entity>,
        ta: Seq<char>,
        tb: Seq<char>,
        ic: bool,
        it: bool,
        ids_a: Seq<usize>,
        ids_b: Seq<usize>,
        g: &crate::quadtree::QuadTreeGrid,
        pairs: Seq<(usize, usize)>,
        same_tags: bool,
        i: int,
    )
        requires
            self.wf(),
            w0.len() == w.len(),
            w0.len() < 0x100_0000,
            same_tags == (ta == tb),
            same_tags ==> ids_b.len() == 0,
            forall|k: int| 0 <= k < w0.len() ==> geom_ok(#[trigger] w0[k]),
            forall|p: int|
                0 <= p < ids_a.len() ==> (#[trigger] ids_a[p]) < w0.len() && has_collider(
                    w0[ids_a[p] as int],
                ) && tag_view(w0[ids_a[p] as int]) == ta,
            forall|p: int|
                0 <= p < ids_b.len() ==> (#[trigger] ids_b[p]) < w0.len() && has_collider(
                    w0[ids_b[p] as int],
                ) && tag_view(w0[ids_b[p] as int]) == tb,
            forall|k: int|
                0 <= k < w0.len() && has_collider(#[trigger] w0[k]) && tag_view(w0[k]) == ta
                    ==> exists|p: int| 0 <= p < ids_a.len() && ids_a[p] == k as usize,
            !same_tags ==> forall|k: int|
                0 <= k < w0.len() && has_collider(#[trigger] w0[k]) && tag_view(w0[k]) == tb
                    ==> exists|p: int| 0 <= p < ids_b.len() && ids_b[p] == k as usize,
            g.wf(),
            g.shape() == self.shape(),
            g@.len() == ids_a.len() + ids_b.len(),
            g@.len() < 0x1000_0000,
            forall|k: int|
                0 <= k < g@.len() ==> #[trigger] grid_entry_ok(
                    self.shape(),
                    w0,
                    ids_a,
                    ids_b,
                    g@,
                    k,
                ),
            forall|i1: int, j1: int|
                0 <= i1 < j1 < g@.len() && crate::quadtree::related(g@[i1], g@[j1])
                    ==> pairs.contains((i1 as usize, j1 as usize)),
            forall|u: int|
                0 <= u < pairs.len() ==> pair_done(
                    w0,
                    w,
                    ta,
                    tb,
                    ic,
                    it,
                    ids_a,
                    ids_b,
                    #[trigger] pairs[u],
                    same_tags,
                ),
            forall|u: int|
                0 <= u < pairs.len() ==> ((#[trigger] pairs[u]).0 as int) < (pairs[u].1 as int)
                    < g@.len(),
            0 <= i < w0.len(),
            has_collider(w0[i]),
            entry_sofar_ok(w0, w, ta, tb, ic, it, i),
        ensures
            entry_result_ok(w0, w, ta, tb, ic, it, i),
    {
        assert forall|j: int|
            #[trigger] this_pair(w0, ta, tb, i, j) && overlap(w0[i], w0[j]) implies ((ic && s2x(
            w0[i],
            w0[j],
        ) < s2y(w0[i], w0[j]) ==> sink_x(w0[i], w0[j]) <= abs_spec(
            w[i].result.unwrap().collision.x as int,
        )) && (ic && s2x(w0[i], w0[j]) >= s2y(w0[i], w0[j]) ==> sink_y(w0[i], w0[j]) <= abs_spec(
            w[i].result.unwrap().collision.y as int,
        )) && (it ==> recorded(w, i, j))) by {
            // place both entities in the grid
            let ki: int = if tag_view(w0[i]) == ta {
                let p = choose|p: int| 0 <= p < ids_a.len() && ids_a[p] == i as usize;
                p
            } else {
                let p = choose|p: int| 0 <= p < ids_b.len() && ids_b[p] == i as usize;
                ids_a.len() + p
            };
            let kj: int = if tag_view(w0[j]) == ta {
                let p = choose|p: int| 0 <= p < ids_a.len() && ids_a[p] == j as usize;
                p
            } else {
                let p = choose|p: int| 0 <= p < ids_b.len() && ids_b[p] == j as usize;
                ids_a.len() + p
            };
            assert(0 <= ki < g@.len() && item_of(ids_a, ids_b, ki) == i);
            assert(0 <= kj < g@.len() && item_of(ids_a, ids_b, kj) == j);
            assert(ki != kj);
            assert(grid_entry_ok(self.shape(), w0, ids_a, ids_b, g@, ki));
            assert(grid_entry_ok(self.shape(), w0, ids_a, ids_b, g@, kj));
            // the two boxes touch, so their grid nodes are on one chain
            lemma_overlap_corners(w0[i], w0[j]);
            let bi = box_of(w0[i]);
            let bj = box_of(w0[j]);
            crate::num::lemma_div_nonneg(w0[i].collider.unwrap().width as int, 2);
            crate::num::lemma_div_shrinks(w0[i].collider.unwrap().width as int, 2);
            crate::num::lemma_div_nonneg(w0[i].collider.unwrap().height as int, 2);
            crate::num::lemma_div_shrinks(w0[i].collider.unwrap().height as int, 2);
            crate::num::lemma_div_nonneg(w0[j].collider.unwrap().width as int, 2);
            crate::num::lemma_div_shrinks(w0[j].collider.unwrap().width as int, 2);
            crate::num::lemma_div_nonneg(w0[j].collider.unwrap().height as int, 2);
            crate::num::lemma_div_shrinks(w0[j].collider.unwrap().height as int, 2);
            crate::quadtree::lemma_overlap_related(
                self.shape().0,
                self.shape().1,
                self.shape().2,
                self.shape().3,
                self.shape().4,
                bi.0,
                bi.1,
                bi.2,
                bi.3,
                bj.0,
                bj.1,
                bj.2,
                bj.3,
                g@[ki],
                g@[kj],
            );
            let (klo, khi) = if ki < kj {
                (ki, kj)
            } else {
                (kj, ki)
            };
            assert(crate::quadtree::related(g@[klo], g@[khi]));
            assert(pairs.contains((klo as usize, khi as usize)));
            let u = choose|u: int| 0 <= u < pairs.len() && pairs[u] == (klo as usize, khi as usize);
            assert(pair_done(w0, w, ta, tb, ic, it, ids_a, ids_b, pairs[u], same_tags));
            let adm = same_tags || ((klo < ids_a.len()) != (khi < ids_a.len()));
            assert(adm) by {
                if !same_tags {
                    if tag_view(w0[i]) == ta {
                        assert(tag_view(w0[j]) == tb);
                        assert(ki < ids_a.len() && kj >= ids_a.len());
                    } else {
                        assert(tag_view(w0[i]) == tb && tag_view(w0[j]) == ta);
                        assert(ki >= ids_a.len() && kj < ids_a.len());
                    }
                }
            }
            lemma_pair_sym(w0, ta, tb, i, j);
            assert(pairs[u].0 as int == klo && pairs[u].1 as int == khi);
            let i0 = item_of(ids_a, ids_b, klo);
            let j0 = item_of(ids_a, ids_b, khi);
            assert((i0 == i && j0 == j) || (i0 == j && j0 == i));
            if ic && s2x(w0[i], w0[j]) < s2y(w0[i], w0[j]) {
                assert(x_pair(w0, ta, tb, i, j));
                assert(x_pair(w0, ta, tb, i0, j0));
                assert(sink_x(w0[i0], w0[j0]) == sink_x(w0[i], w0[j]));
                assert(sink_x(w0[i0], w0[j0]) <= abs_spec(
                    w[i0].result.unwrap().collision.x as int,
                ) && sink_x(w0[i0], w0[j0]) <= abs_spec(w[j0].result.unwrap().collision.x as int));
            }
            if ic && s2x(w0[i], w0[j]) >= s2y(w0[i], w0[j]) {
                assert(y_pair(w0, ta, tb, i, j));
                assert(y_pair(w0, ta, tb, i0, j0));
                assert(sink_y(w0[i0], w0[j0]) == sink_y(w0[i], w0[j]));
                assert(sink_y(w0[i0], w0[j0]) <= abs_spec(
                    w[i0].result.unwrap().collision.y as int,
                ) && sink_y(w0[i0], w0[j0]) <= abs_spec(w[j0].result.unwrap().collision.y as int));
            }
            if it {
                assert(t_pair(w0, ta, tb, i, j));
                assert(t_pair(w0, ta, tb, i0, j0));
                assert(recorded(w, i0, j0) && recorded(w, j0, i0));
            }
        }
        assert forall|j: int| ic && #[trigger] x_pair(w0, ta, tb, i, j) implies sink_x(
            w0[i],
            w0[j],
        ) <= abs_spec(w[i].result.unwrap().collision.x as int) by {
            assert(this_pair(w0, ta, tb, i, j) && overlap(w0[i], w0[j]));
        }
        assert forall|j: int| ic && #[trigger] y_pair(w0, ta, tb, i, j) implies sink_y(
            w0[i],
            w0[j],
        ) <= abs_spec(w[i].result.unwrap().collision.y as int) by {
            assert(this_pair(w0, ta, tb, i, j) && overlap(w0[i], w0[j]));
        }
        assert forall|j: int| it && #[trigger] t_pair(w0, ta, tb, i, j) implies recorded(
            w,
            i,
            j,
        ) by {
            assert(this_pair(w0, ta, tb, i, j) && overlap(w0[i], w0[j]));
        }
    }
}

impl CollisionSystem {
    /// Builds the broad-phase index for one entry: every side-A entity's
    /// box, then every side-B entity's box, each entry carrying its world
    /// index.
    #[verifier::loop_isolation(false)]
    fn build_grid(&self, world: &Vec<Entity>, ids_a: &Vec<usize>, ids_b: &Vec<usize>) -> (g:
        crate::quadtree::QuadTreeGrid)
        requires
            self.wf(),
            forall|i: int| 0 <= i < world@.len() ==> geom_ok(#[trigger] world@[i]),
            forall|p: int|
                0 <= p < ids_a@.len() ==> (#[trigger] ids_a@[p]) < world@.len() && has_collider(
                    world@[ids_a@[p] as int],
                ),
            forall|p: int|
                0 <= p < ids_b@.len() ==> (#[trigger] ids_b@[p]) < world@.len() && has_collider(
                    world@[ids_b@[p] as int],
                ),
            ids_a@.len() + ids_b@.len() < 0x1000_0000,
        ensures
            g.wf(),
            g.shape() == self.shape(),
            g@.len() == ids_a@.len() + ids_b@.len(),
            forall|k: int|
                0 <= k < g@.len() ==> #[trigger] grid_entry_ok(
                    self.shape(),
                    world@,
                    ids_a@,
                    ids_b@,
                    g@,
                    k,
                ),
    {
        let mut g = crate::quadtree::QuadTreeGrid::new(
            self.level,
            self.x,
            self.y,
            self.width,
            self.height,
        );
        let na = ids_a.len();
        let nb = ids_b.len();
        let mut p: usize = 0;
        while p < na
            invariant
                p <= na,
                g.wf(),
                g.shape() == self.shape(),
                g@.len() == p,
                forall|k: int|
                    0 <= k < p ==> #[trigger] grid_entry_ok(
                        self.shape(),
                        world@,
                        ids_a@,
                        ids_b@,
                        g@,
                        k,
                    ),
            decreases na - p,
        {
            let i = ids_a[p];
            let pos = world[i].pos;
            let mut cw: i64 = 1;
            let mut ch: i64 = 1;
            match &world[i].collider {
                Some(c) => {
                    cw = c.width;
                    ch = c.height;
                },
                None => {},
            }
            proof {
                crate::num::lemma_div_nonneg(cw as int, 2);
                crate::num::lemma_div_shrinks(cw as int, 2);
                crate::num::lemma_div_nonneg(ch as int, 2);
                crate::num::lemma_div_shrinks(ch as int, 2);
            }
            let ghost old_g = g@;
            g.add_entity(pos.x - cw / 2, pos.y - ch / 2, cw, ch, i as u64);
            proof {
                assert(item_of(ids_a@, ids_b@, p as int) == i as int);
                assert(box_of(world@[i as int]) == (
                    pos.x - cw / 2,
                    pos.y - ch / 2,
                    cw as int,
                    ch as int,
                ));
                assert(g@[p as int].item == i as u64);
                let ghost nd = crate::quadtree::node_of(
                    self.shape(),
                    box_of(world@[i as int]).0,
                    box_of(world@[i as int]).1,
                    box_of(world@[i as int]).2,
                    box_of(world@[i as int]).3,
                );
                crate::quadtree::lemma_pow4i_values();
                crate::quadtree::lemma_pow4i_mono(nd.0, 8);
                assert(grid_entry_ok(self.shape(), world@, ids_a@, ids_b@, g@, p as int));
                assert forall|k: int|
                    0 <= k < p + 1 implies #[trigger] grid_entry_ok(
                    self.shape(),
                    world@,
                    ids_a@,
                    ids_b@,
                    g@,
                    k,
                ) by {
                    if k < p {
                        assert(grid_entry_ok(self.shape(), world@, ids_a@, ids_b@, old_g, k));
                        assert(g@[k] == old_g[k]);
                    }
                }
            }
            p = p + 1;
        }
        let mut q: usize = 0;
        while q < nb
            invariant
                q <= nb,
                g.wf(),
                g.shape() == self.shape(),
                g@.len() == na + q,
                na == ids_a@.len(),
                forall|k: int|
                    0 <= k < na + q ==> #[trigger] grid_entry_ok(
                        self.shape(),
                        world@,
                        ids_a@,
                        ids_b@,
                        g@,
                        k,
                    ),
            decreases nb - q,
        {
            let i = ids_b[q];
            let pos = world[i].pos;
            let mut cw: i64 = 1;
            let mut ch: i64 = 1;
            match &world[i].collider {
                Some(c) => {
                    cw = c.width;
                    ch = c.height;
                },
                None => {},
            }
            proof {
                crate::num::lemma_div_nonneg(cw as int, 2);
                crate::num::lemma_div_shrinks(cw as int, 2);
                crate::num::lemma_div_nonneg(ch as int, 2);
                crate::num::lemma_div_shrinks(ch as int, 2);
            }
            let ghost old_g = g@;
            g.add_entity(pos.x - cw / 2, pos.y - ch / 2, cw, ch, i as u64);
            proof {
                assert(item_of(ids_a@, ids_b@, na + q as int) == i as int);
                assert(box_of(world@[i as int]) == (
                    pos.x - cw / 2,
                    pos.y - ch / 2,
                    cw as int,
                    ch as int,
                ));
                assert(g@[na + q as int].item == i as u64);
                let ghost nd = crate::quadtree::node_of(
                    self.shape(),
                    box_of(world@[i as int]).0,
                    box_of(world@[i as int]).1,
                    box_of(world@[i as int]).2,
                    box_of(world@[i as int]).3,
                );
                crate::quadtree::lemma_pow4i_values();
                crate::quadtree::lemma_pow4i_mono(nd.0, 8);
                assert(grid_entry_ok(self.shape(), world@, ids_a@, ids_b@, g@, na + q as int));
                assert forall|k: int|
                    0 <= k < na + q + 1 implies #[trigger] grid_entry_ok(
                    self.shape(),
                    world@,
                    ids_a@,
                    ids_b@,
                    g@,
                    k,
                ) by {
                    if k < na + q {
                        assert(grid_entry_ok(self.shape(), world@, ids_a@, ids_b@, old_g, k));
                        assert(g@[k] == old_g[k]);
                    }
                }
            }
            q = q + 1;
        }
        g
    }

    /// Evaluates one tag-pair entry: builds the spatial index over both
    /// sides, walks the broad-phase candidate pairs, and applies the narrow
    /// phase with trigger recording and largest-magnitude correction
    /// merging. No due pair is missed: the broad phase is proven complete.
    #[verifier::loop_isolation(false)]
    #[verifier::rlimit(100)]
    fn eval_entry(
        &self,
        world: &mut Vec<Entity>,
        tag_a: &String,
        tag_b: &String,
        is_collide: bool,
        is_trigger: bool,
    )
        requires
            self.wf(),
            old(world)@.len() < 0x100_0000,
            forall|i: int| 0 <= i < old(world)@.len() ==> geom_ok(#[trigger] old(world)@[i]),
            forall|i: int|
                0 <= i < old(world)@.len() && has_collider(#[trigger] old(world)@[i]) ==> {
                    let r = old(world)@[i].result;
                    &&& r is Some
                    &&& abs_spec(r.unwrap().collision.x as int) <= COORD_LIMIT
                    &&& abs_spec(r.unwrap().collision.y as int) <= COORD_LIMIT
                    &&& forall|k: int|
                        0 <= k < r.unwrap().collided@.len() ==> !this_pair(
                            old(world)@,
                            tag_a@,
                            tag_b@,
                            i,
                            (#[trigger] r.unwrap().collided@[k]).entity as int,
                        )
                },
        ensures
            final(world)@.len() == old(world)@.len(),
            forall|i: int|
                0 <= i < old(world)@.len() && !has_collider(#[trigger] old(world)@[i])
                    ==> final(world)@[i] == old(world)@[i],
            forall|i: int|
                0 <= i < old(world)@.len() && has_collider(#[trigger] old(world)@[i])
                    ==> entry_result_ok(
                    old(world)@,
                    final(world)@,
                    tag_a@,
                    tag_b@,
                    is_collide,
                    is_trigger,
                    i,
                ),
    {
        let ghost w0 = old(world)@;
        let ghost ta = tag_a@;
        let ghost tb = tag_b@;
        let ids_a = collect_tagged(world, tag_a);
        let same_tags = *tag_a == *tag_b;
        let ids_b: Vec<usize> = if same_tags {
            Vec::new()
        } else {
            collect_tagged(world, tag_b)
        };
        let na = ids_a.len();
        proof {
            assert forall|p1: int, p2: int|
                0 <= p1 < ids_a@.len() && 0 <= p2 < ids_b@.len() implies ids_a@[p1]
                != ids_b@[p2] by {
                assert(tag_view(w0[ids_a@[p1] as int]) == ta);
                assert(tag_view(w0[ids_b@[p2] as int]) == tb);
            }
            assert forall|k: int|
                0 <= k < ids_a@.len() + ids_b@.len() implies 0 <= item_of(ids_a@, ids_b@, k)
                < w0.len() && has_collider(w0[item_of(ids_a@, ids_b@, k)]) by {}
        }
        let g = self.build_grid(world, &ids_a, &ids_b);
        let pairs = g.iter_entity_pair();
        let np = pairs.len();
        proof {
            assert forall|i: int|
                0 <= i < w0.len() && has_collider(#[trigger] w0[i]) implies entry_sofar_ok(
                w0,
                world@,
                ta,
                tb,
                is_collide,
                is_trigger,
                i,
            ) by {
                assert(world@[i] == w0[i]);
                assert(w0[i].result.unwrap().collided@.subrange(
                    0,
                    w0[i].result.unwrap().collided@.len() as int,
                ) =~= w0[i].result.unwrap().collided@);
            }
        }
        let mut t: usize = 0;
        while t < np
            invariant
                t <= np,
                world@.len() == w0.len(),
                forall|i: int|
                    0 <= i < w0.len() && !has_collider(#[trigger] w0[i]) ==> world@[i] == w0[i],
                forall|i: int|
                    0 <= i < w0.len() && has_collider(#[trigger] w0[i]) ==> entry_sofar_ok(
                        w0,
                        world@,
                        ta,
                        tb,
                        is_collide,
                        is_trigger,
                        i,
                    ),
                forall|u: int|
                    0 <= u < t ==> pair_done(
                        w0,
                        world@,
                        ta,
                        tb,
                        is_collide,
                        is_trigger,
                        ids_a@,
                        ids_b@,
                        #[trigger] pairs@[u],
                        same_tags,
                    ),
                forall|u: int|
                    t <= u < np ==> pair_pending(
                        w0,
                        world@,
                        ids_a@,
                        ids_b@,
                        #[trigger] pairs@[u],
                        same_tags,
                    ),
            decreases np - t,
        {
            let k1 = pairs[t].0;
            let k2 = pairs[t].1;
            proof {
                assert(pairs@[t as int] == (k1, k2));
                assert((k1 as int) < (k2 as int) < g@.len());
                assert(grid_entry_ok(self.shape(), w0, ids_a@, ids_b@, g@, k1 as int));
                assert(grid_entry_ok(self.shape(), w0, ids_a@, ids_b@, g@, k2 as int));
            }
            let i1 = if k1 < na {
                ids_a[k1]
            } else {
                ids_b[k1 - na]
            };
            let i2 = if k2 < na {
                ids_a[k2]
            } else {
                ids_b[k2 - na]
            };
            proof {
                assert(i1 as int == item_of(ids_a@, ids_b@, k1 as int));
                assert(i2 as int == item_of(ids_a@, ids_b@, k2 as int));
            }
            let s1 = k1 < na;
            let s2 = k2 < na;
            if same_tags || s1 != s2 {
                let (ia, ib) = if same_tags || s1 {
                    (i1, i2)
                } else {
                    (i2, i1)
                };
                proof {
                    if same_tags {
                        assert(i1 < i2) by {
                            assert(ids_b@.len() == 0);
                            assert(ids_a@[k1 as int] < ids_a@[k2 as int]);
                        }
                        assert(tag_view(w0[ia as int]) == ta && tag_view(w0[ib as int]) == ta);
                        assert(ta == tb);
                    } else {
                        assert(tag_view(w0[ia as int]) == ta);
                        assert(tag_view(w0[ib as int]) == tb);
                        assert(ia != ib) by {
                            if ia == ib {
                                assert(tag_view(w0[ia as int]) == ta && tag_view(w0[ia as int])
                                    == tb);
                            }
                        }
                    }
                    assert(this_pair(w0, ta, tb, ia as int, ib as int));
                    assert(entry_i_is_a(w0, ta, tb, ia as int, ib as int));
                    assert(entry_sofar_ok(w0, world@, ta, tb, is_collide, is_trigger, ia as int));
                    assert(entry_sofar_ok(w0, world@, ta, tb, is_collide, is_trigger, ib as int));
                    assert(pair_pending(w0, world@, ids_a@, ids_b@, pairs@[t as int], same_tags));
                }
                let ghost wpre = world@;
                process_pair(world, ia, ib, tag_a, tag_b, is_collide, is_trigger);
                proof {
                    lemma_entry_step(
                        w0,
                        wpre,
                        world@,
                        ta,
                        tb,
                        is_collide,
                        is_trigger,
                        ia as int,
                        ib as int,
                    );
                    lemma_pair_sym(w0, ta, tb, i1 as int, i2 as int);
                    assert(pair_done(
                        w0,
                        world@,
                        ta,
                        tb,
                        is_collide,
                        is_trigger,
                        ids_a@,
                        ids_b@,
                        pairs@[t as int],
                        same_tags,
                    ));
                    assert forall|u: int|
                        0 <= u < t implies pair_done(
                        w0,
                        world@,
                        ta,
                        tb,
                        is_collide,
                        is_trigger,
                        ids_a@,
                        ids_b@,
                        #[trigger] pairs@[u],
                        same_tags,
                    ) by {
                        lemma_done_persists(
                            w0,
                            wpre,
                            world@,
                            ta,
                            tb,
                            is_collide,
                            is_trigger,
                            ids_a@,
                            ids_b@,
                            pairs@[u],
                            same_tags,
                        );
                    }
                    assert forall|u: int|
                        t + 1 <= u < np implies pair_pending(
                        w0,
                        world@,
                        ids_a@,
                        ids_b@,
                        #[trigger] pairs@[u],
                        same_tags,
                    ) by {
                        assert(pairs@[u] != pairs@[t as int]);
                        lemma_mapped_distinct(ids_a@, ids_b@, pairs@[u], pairs@[t as int]);
                        lemma_pending_persists(
                            w0,
                            wpre,
                            world@,
                            ids_a@,
                            ids_b@,
                            pairs@[u],
                            same_tags,
                            ia as int,
                            ib as int,
                        );
                    }
                }
            }
            t = t + 1;
        }
        proof {
            assert forall|i: int|
                0 <= i < w0.len() && has_collider(#[trigger] w0[i]) implies entry_result_ok(
                w0,
                world@,
                ta,
                tb,
                is_collide,
                is_trigger,
                i,
            ) by {
                self.lemma_entry_complete(
                    w0,
                    world@,
                    ta,
                    tb,
                    is_collide,
                    is_trigger,
                    ids_a@,
                    ids_b@,
                    &g,
                    pairs@,
                    same_tags,
                    i,
                );
            }
        }
    }
}

/// The pair `(i, j)` collides under the matrix, overlapping with the x axis
/// as the thinner penetration.
pub open spec fn x_cand(sys: &CollisionSystem, w: Seq<Entity>, i: int, j: int) -> bool {
    &&& 0 <= i < w.len()
    &&& 0 <= j < w.len()
    &&& i != j
    &&& has_collider(w[i])
    &&& has_collider(w[j])
    &&& sys.collides(tag_view(w[i]), tag_view(w[j]))
    &&& overlap(w[i], w[j])
    &&& s2x(w[i], w[j]) < s2y(w[i], w[j])
}

/// The pair collides and resolves on the y axis (ties go to y).
pub open spec fn y_cand(sys: &CollisionSystem, w: Seq<Entity>, i: int, j: int) -> bool {
    &&& 0 <= i < w.len()
    &&& 0 <= j < w.len()
    &&& i != j
    &&& has_collider(w[i])
    &&& has_collider(w[j])
    &&& sys.collides(tag_view(w[i]), tag_view(w[j]))
    &&& overlap(w[i], w[j])
    &&& s2x(w[i], w[j]) >= s2y(w[i], w[j])
}

/// The pair triggers under the matrix and overlaps.
pub open spec fn trig_cand(sys: &CollisionSystem, w: Seq<Entity>, i: int, j: int) -> bool {
    &&& 0 <= i < w.len()
    &&& 0 <= j < w.len()
    &&& i != j
    &&& has_collider(w[i])
    &&& has_collider(w[j])
    &&& sys.triggers(tag_view(w[i]), tag_view(w[j]))
    &&& overlap(w[i], w[j])
}

/// Whether `i` counts as the first-registered side of the pair.
pub open spec fn i_is_a(sys: &CollisionSystem, w: Seq<Entity>, i: int, j: int) -> bool {
    if tag_view(w[i]) == tag_view(w[j]) {
        i < j
    } else {
        sys.collide_fwd(tag_view(w[i]), tag_view(w[j]))
    }
}

/// The signed x correction entity `i` receives from partner `j`.
pub open spec fn corr_x(sys: &CollisionSystem, w: Seq<Entity>, i: int, j: int) -> int {
    if i_is_a(sys, w, i, j) {
        corr_x_for(w[i], w[j])
    } else {
        -corr_x_for(w[j], w[i])
    }
}

/// The signed y correction entity `i` receives from partner `j`.
pub open spec fn corr_y(sys: &CollisionSystem, w: Seq<Entity>, i: int, j: int) -> int {
    if i_is_a(sys, w, i, j) {
        corr_y_for(w[i], w[j])
    } else {
        -corr_y_for(w[j], w[i])
    }
}

/// The per-entity state between the pair passes and the response pass.
pub open spec fn mid_ok(sys: &CollisionSystem, w0: Seq<Entity>, w: Seq<Entity>, i: int) -> bool {
    if !has_collider(w0[i]) {
        w[i] == (Entity { result: None, ..w0[i] })
    } else {
        let r = w[i].result.unwrap();
        &&& same_but_result(w0[i], w[i])
        &&& abs_spec(r.collision.x as int) <= COORD_LIMIT
        &&& abs_spec(r.collision.y as int) <= COORD_LIMIT
        &&& (r.collision.x == 0 || exists|j: int|
            #[trigger] x_cand(sys, w0, i, j) && r.collision.x as int == corr_x(sys, w0, i, j))
        &&& (r.collision.y == 0 || exists|j: int|
            #[trigger] y_cand(sys, w0, i, j) && r.collision.y as int == corr_y(sys, w0, i, j))
        &&& forall|k: int| #![trigger r.collided@[k]]
            0 <= k < r.collided@.len() ==> (trig_cand(
                sys,
                w0,
                i,
                (r.collided@[k]).entity as int,
            ) && r.collided@[k].tag@ == tag_view(w0[(r.collided@[k]).entity as int]))
        &&& forall|k1: int, k2: int| #![trigger r.collided@[k1], r.collided@[k2]]
            0 <= k1 < k2 < r.collided@.len() ==> (r.collided@[k1]).entity != (
            r.collided@[k2]).entity
    }
}

/// What one full collision pass promises for entity `i`: the recorded
/// correction is a largest-magnitude candidate correction (or zero when
/// there is none), the trigger list holds exactly the trigger partners, and
/// a corrected rigidbody was moved out of penetration with its velocity
/// reflected.
pub open spec fn run_ok(sys: &CollisionSystem, w0: Seq<Entity>, w1: Seq<Entity>, i: int) -> bool {
    if !has_collider(w0[i]) {
        w1[i] == (Entity { result: None, ..w0[i] })
    } else {
        let r = w1[i].result.unwrap();
        &&& w1[i].result is Some
        &&& w1[i].collider == w0[i].collider
        &&& w1[i].facing == w0[i].facing
        &&& (r.collision.x == 0 || exists|j: int|
            #[trigger] x_cand(sys, w0, i, j) && r.collision.x as int == corr_x(sys, w0, i, j))
        &&& (r.collision.y == 0 || exists|j: int|
            #[trigger] y_cand(sys, w0, i, j) && r.collision.y as int == corr_y(sys, w0, i, j))
        &&& (forall|j: int|
            #[trigger] x_cand(sys, w0, i, j) ==> sink_x(w0[i], w0[j]) <= abs_spec(
                r.collision.x as int,
            ))
        &&& (forall|j: int|
            #[trigger] y_cand(sys, w0, i, j) ==> sink_y(w0[i], w0[j]) <= abs_spec(
                r.collision.y as int,
            ))
        &&& forall|k: int| #![trigger r.collided@[k]]
            0 <= k < r.collided@.len() ==> (trig_cand(
                sys,
                w0,
                i,
                (r.collided@[k]).entity as int,
            ) && r.collided@[k].tag@ == tag_view(w0[(r.collided@[k]).entity as int]))
        &&& (forall|j: int| #[trigger] trig_cand(sys, w0, i, j) ==> recorded(w1, i, j))
        &&& forall|k1: int, k2: int| #![trigger r.collided@[k1], r.collided@[k2]]
            0 <= k1 < k2 < r.collided@.len() ==> (r.collided@[k1]).entity != (
            r.collided@[k2]).entity
        &&& (if w0[i].body is Some && !(r.collision.x == 0 && r.collision.y == 0) {
            &&& w1[i].pos.x as int == w0[i].pos.x + r.collision.x
            &&& w1[i].pos.y as int == w0[i].pos.y + r.collision.y
            &&& w1[i].body is Some
            &&& w1[i].body.unwrap() == (Rigidbody {
                velocity: Vec2 {
                    x: reflect_spec(
                        w0[i].body.unwrap().velocity,
                        r.collision,
                        w0[i].body.unwrap().bounciness as int,
                        w0[i].body.unwrap().friction as int,
                    ).0 as i64,
                    y: reflect_spec(
                        w0[i].body.unwrap().velocity,
                        r.collision,
                        w0[i].body.unwrap().bounciness as int,
                        w0[i].body.unwrap().friction as int,
                    ).1 as i64,
                },
                ..w0[i].body.unwrap()
            })
        } else {
            w1[i].pos == w0[i].pos && w1[i].body == w0[i].body
        })
    }
}

/// Narrow-phase judgments depend only on positions and colliders, which the
/// pair passes never touch.
proof fn lemma_geom_eq(
    w0: Seq<Entity>,
    w: Seq<Entity>,
    ta: Seq<char>,
    tb: Seq<char>,
    i: int,
    j: int,
)
    requires
        0 <= i < w0.len(),
        0 <= j < w0.len(),
        w0.len() == w.len(),
        w[i].pos == w0[i].pos,
        w[i].collider == w0[i].collider,
        w[j].pos == w0[j].pos,
        w[j].collider == w0[j].collider,
    ensures
        this_pair(w, ta, tb, i, j) == this_pair(w0, ta, tb, i, j),
        x_pair(w, ta, tb, i, j) == x_pair(w0, ta, tb, i, j),
        y_pair(w, ta, tb, i, j) == y_pair(w0, ta, tb, i, j),
        t_pair(w, ta, tb, i, j) == t_pair(w0, ta, tb, i, j),
        sink_x(w[i], w[j]) == sink_x(w0[i], w0[j]),
        sink_y(w[i], w[j]) == sink_y(w0[i], w0[j]),
        corr_x_entry(w, ta, tb, i, j) == corr_x_entry(w0, ta, tb, i, j),
        corr_y_entry(w, ta, tb, i, j) == corr_y_entry(w0, ta, tb, i, j),
        overlap(w[i], w[j]) == overlap(w0[i], w0[j]),
        tag_view(w[i]) == tag_view(w0[i]),
{
    assert(s2x(w[i], w[j]) == s2x(w0[i], w0[j]));
    assert(s2y(w[i], w[j]) == s2y(w0[i], w0[j]));
}


impl CollisionSystem {
    /// A collide entry decides the tie-break side exactly as the relation's
    /// first-registered orientation does.
    proof fn lemma_entry_corr(&self, w0: Seq<Entity>, e: int, i: int, j: int)
        requires
            self.wf(),
            0 <= e < self.collide_entries@.len(),
            this_pair(w0, self.collide_entries@[e].0@, self.collide_entries@[e].1@, i, j),
        ensures
            entry_i_is_a(w0, self.collide_entries@[e].0@, self.collide_entries@[e].1@, i, j)
                == i_is_a(self, w0, i, j),
            corr_x_entry(w0, self.collide_entries@[e].0@, self.collide_entries@[e].1@, i, j)
                == corr_x(self, w0, i, j),
            corr_y_entry(w0, self.collide_entries@[e].0@, self.collide_entries@[e].1@, i, j)
                == corr_y(self, w0, i, j),
            self.collides(tag_view(w0[i]), tag_view(w0[j])),
    {
        let ta = self.collide_entries@[e].0@;
        let tb = self.collide_entries@[e].1@;
        let ti = tag_view(w0[i]);
        let tj = tag_view(w0[j]);
        assert(pair_matches(self.collide_entries@[e], ti, tj));
        assert(list_has_pair(self.collide_entries@, ti, tj));
        if ti != tj {
            if ti == ta && tj == tb {
                assert(self.collide_fwd(ti, tj));
            } else {
                assert(ti == tb && tj == ta);
                assert(!self.collide_fwd(ti, tj)) by {
                    if self.collide_fwd(ti, tj) {
                        let e2 = choose|e2: int|
                            0 <= e2 < self.collide_entries@.len() && (
                            #[trigger] self.collide_entries@[e2]).0@ == ti
                                && self.collide_entries@[e2].1@ == tj;
                        assert(pair_matches(self.collide_entries@[e2], ta, tb));
                        assert(pair_matches(self.collide_entries@[e], ta, tb));
                        if e < e2 {
                            assert(!pair_matches(
                                self.collide_entries@[e],
                                self.collide_entries@[e2].0@,
                                self.collide_entries@[e2].1@,
                            ));
                        } else if e2 < e {
                            assert(!pair_matches(
                                self.collide_entries@[e2],
                                self.collide_entries@[e].0@,
                                self.collide_entries@[e].1@,
                            ));
                        }
                    }
                }
            }
        }
    }

}

/// The running world of a frame agrees with the original on geometry.
proof fn lemma_mid_geom(
    sys: &CollisionSystem,
    w0: Seq<Entity>,
    w: Seq<Entity>,
    ta: Seq<char>,
    tb: Seq<char>,
    i: int,
    j: int,
)
    requires
        w0.len() == w.len(),
        0 <= i < w0.len(),
        0 <= j < w0.len(),
        mid_ok(sys, w0, w, i),
        mid_ok(sys, w0, w, j),
    ensures
        this_pair(w, ta, tb, i, j) == this_pair(w0, ta, tb, i, j),
        x_pair(w, ta, tb, i, j) == x_pair(w0, ta, tb, i, j),
        y_pair(w, ta, tb, i, j) == y_pair(w0, ta, tb, i, j),
        t_pair(w, ta, tb, i, j) == t_pair(w0, ta, tb, i, j),
        sink_x(w[i], w[j]) == sink_x(w0[i], w0[j]),
        sink_y(w[i], w[j]) == sink_y(w0[i], w0[j]),
        corr_x_entry(w, ta, tb, i, j) == corr_x_entry(w0, ta, tb, i, j),
        corr_y_entry(w, ta, tb, i, j) == corr_y_entry(w0, ta, tb, i, j),
        overlap(w[i], w[j]) == overlap(w0[i], w0[j]),
        has_collider(w[i]) == has_collider(w0[i]),
        has_collider(w[j]) == has_collider(w0[j]),
{
    assert(w[i].pos == w0[i].pos && w[i].collider == w0[i].collider) by {
        if has_collider(w0[i]) {
        } else {
            assert(w[i] == (Entity { result: None, ..w0[i] }));
        }
    }
    assert(w[j].pos == w0[j].pos && w[j].collider == w0[j].collider) by {
        if has_collider(w0[j]) {
        } else {
            assert(w[j] == (Entity { result: None, ..w0[j] }));
        }
    }
    lemma_geom_eq(w0, w, ta, tb, i, j);
}

/// Every pair due under collide entry `e` has been absorbed into the
/// running results.
spec fn c_entry_done(sys: &CollisionSystem, w0: Seq<Entity>, w: Seq<Entity>, e: int) -> bool {
    let ta = sys.collide_entries@[e].0@;
    let tb = sys.collide_entries@[e].1@;
    &&& (forall|i: int, j: int|
        #[trigger] x_pair(w0, ta, tb, i, j) ==> sink_x(w0[i], w0[j]) <= abs_spec(
            w[i].result.unwrap().collision.x as int,
        ))
    &&& (forall|i: int, j: int|
        #[trigger] y_pair(w0, ta, tb, i, j) ==> sink_y(w0[i], w0[j]) <= abs_spec(
            w[i].result.unwrap().collision.y as int,
        ))
    &&& (sys.triggers(ta, tb) ==> forall|i: int, j: int|
        #[trigger] t_pair(w0, ta, tb, i, j) ==> recorded(w, i, j))
}

/// Every pair due under trigger entry `e` has been recorded.
spec fn t_entry_done(sys: &CollisionSystem, w0: Seq<Entity>, w: Seq<Entity>, e: int) -> bool {
    let ta = sys.trigger_entries@[e].0@;
    let tb = sys.trigger_entries@[e].1@;
    forall|i: int, j: int| #[trigger] t_pair(w0, ta, tb, i, j) ==> recorded(w, i, j)
}

/// The tag pair was handled by one of the first `ec` collide entries.
spec fn covered_c(sys: &CollisionSystem, ec: int, a: Seq<char>, b: Seq<char>) -> bool {
    exists|e: int|
        0 <= e < ec && e < sys.collide_entries@.len() && pair_matches(
            #[trigger] sys.collide_entries@[e],
            a,
            b,
        )
}

/// The tag pair was handled in the collide pass or by one of the first
/// `et` trigger entries.
spec fn covered_t(sys: &CollisionSystem, et: int, a: Seq<char>, b: Seq<char>) -> bool {
    covered_c(sys, sys.collide_entries@.len() as int, a, b) || exists|e: int|
        0 <= e < et && e < sys.trigger_entries@.len() && pair_matches(
            #[trigger] sys.trigger_entries@[e],
            a,
            b,
        )
}

/// An entity's recorded partners and corrections persist when its own
/// list is only appended to and its magnitudes only grow.
proof fn lemma_run_persist(
    sys: &CollisionSystem,
    w0: Seq<Entity>,
    wpre: Seq<Entity>,
    wpost: Seq<Entity>,
    nc: int,
    nt: int,
)
    requires
        w0.len() == wpre.len() == wpost.len(),
        nc <= sys.collide_entries@.len(),
        nt <= sys.trigger_entries@.len(),
        forall|i: int|
            0 <= i < w0.len() && has_collider(#[trigger] w0[i]) ==> {
                &&& wpre[i].result is Some
                &&& wpost[i].result is Some
                &&& abs_spec(wpost[i].result.unwrap().collision.x as int) >= abs_spec(
                    wpre[i].result.unwrap().collision.x as int,
                )
                &&& abs_spec(wpost[i].result.unwrap().collision.y as int) >= abs_spec(
                    wpre[i].result.unwrap().collision.y as int,
                )
                &&& wpost[i].result.unwrap().collided@.len()
                    >= wpre[i].result.unwrap().collided@.len()
                &&& wpost[i].result.unwrap().collided@.subrange(
                    0,
                    wpre[i].result.unwrap().collided@.len() as int,
                ) == wpre[i].result.unwrap().collided@
            },
        forall|e: int| 0 <= e < nc ==> #[trigger] c_entry_done(sys, w0, wpre, e),
        forall|e: int| 0 <= e < nt ==> #[trigger] t_entry_done(sys, w0, wpre, e),
    ensures
        forall|e: int| 0 <= e < nc ==> #[trigger] c_entry_done(sys, w0, wpost, e),
        forall|e: int| 0 <= e < nt ==> #[trigger] t_entry_done(sys, w0, wpost, e),
{
    assert forall|i: int, j: int|
        0 <= i < w0.len() && has_collider(w0[i]) && recorded(wpre, i, j) implies recorded(
        wpost,
        i,
        j,
    ) by {
        let k = choose|k: int|
            0 <= k < wpre[i].result.unwrap().collided@.len() && (
            #[trigger] wpre[i].result.unwrap().collided@[k]).entity as int == j;
        assert(wpost[i].result.unwrap().collided@.subrange(
            0,
            wpre[i].result.unwrap().collided@.len() as int,
        )[k] == wpre[i].result.unwrap().collided@[k]);
        assert(wpost[i].result.unwrap().collided@[k].entity as int == j);
    }
    assert forall|e: int| 0 <= e < nc implies #[trigger] c_entry_done(sys, w0, wpost, e) by {
        let ta = sys.collide_entries@[e].0@;
        let tb = sys.collide_entries@[e].1@;
        assert(c_entry_done(sys, w0, wpre, e));
        assert forall|i: int, j: int| #[trigger] x_pair(w0, ta, tb, i, j) implies sink_x(
            w0[i],
            w0[j],
        ) <= abs_spec(wpost[i].result.unwrap().collision.x as int) by {}
        assert forall|i: int, j: int| #[trigger] y_pair(w0, ta, tb, i, j) implies sink_y(
            w0[i],
            w0[j],
        ) <= abs_spec(wpost[i].result.unwrap().collision.y as int) by {}
        if sys.triggers(ta, tb) {
            assert forall|i: int, j: int| #[trigger] t_pair(w0, ta, tb, i, j) implies recorded(
                wpost,
                i,
                j,
            ) by {
                assert(recorded(wpre, i, j));
            }
        }
    }
    assert forall|e: int| 0 <= e < nt implies #[trigger] t_entry_done(sys, w0, wpost, e) by {
        let ta = sys.trigger_entries@[e].0@;
        let tb = sys.trigger_entries@[e].1@;
        assert(t_entry_done(sys, w0, wpre, e));
        assert forall|i: int, j: int| #[trigger] t_pair(w0, ta, tb, i, j) implies recorded(
            wpost,
            i,
            j,
        ) by {
            assert(recorded(wpre, i, j));
        }
    }
}

/// What a pair pass needs of the running world, and why no already
/// recorded partner can belong to the entry about to run.
proof fn lemma_run_entry_pre(
    sys: &CollisionSystem,
    w0: Seq<Entity>,
    w: Seq<Entity>,
    ta: Seq<char>,
    tb: Seq<char>,
    e: int,
    phase1: bool,
)
    requires
        sys.wf(),
        w0.len() == w.len(),
        forall|i: int| 0 <= i < w0.len() ==> #[trigger] w0[i].wf(),
        forall|i: int| 0 <= i < w0.len() ==> #[trigger] mid_ok(sys, w0, w, i),
        phase1 ==> 0 <= e < sys.collide_entries@.len() && ta == sys.collide_entries@[e].0@ && tb
            == sys.collide_entries@[e].1@,
        !phase1 ==> 0 <= e < sys.trigger_entries@.len() && ta == sys.trigger_entries@[e].0@ && tb
            == sys.trigger_entries@[e].1@ && !list_has_pair(sys.collide_entries@, ta, tb),
        phase1 ==> forall|i: int, k: int|
            0 <= i < w0.len() && has_collider(#[trigger] w0[i]) && 0 <= k
                < w[i].result.unwrap().collided@.len() ==> covered_c(
                sys,
                e,
                tag_view(w0[i]),
                tag_view(w0[(#[trigger] w[i].result.unwrap().collided@[k]).entity as int]),
            ),
        !phase1 ==> forall|i: int, k: int|
            0 <= i < w0.len() && has_collider(#[trigger] w0[i]) && 0 <= k
                < w[i].result.unwrap().collided@.len() ==> covered_t(
                sys,
                e,
                tag_view(w0[i]),
                tag_view(w0[(#[trigger] w[i].result.unwrap().collided@[k]).entity as int]),
            ),
    ensures
        forall|i: int| 0 <= i < w.len() ==> geom_ok(#[trigger] w[i]),
        forall|i: int|
            0 <= i < w.len() && has_collider(#[trigger] w[i]) ==> {
                let r = w[i].result;
                &&& r is Some
                &&& abs_spec(r.unwrap().collision.x as int) <= COORD_LIMIT
                &&& abs_spec(r.unwrap().collision.y as int) <= COORD_LIMIT
                &&& forall|k: int|
                    0 <= k < r.unwrap().collided@.len() ==> !this_pair(
                        w,
                        ta,
                        tb,
                        i,
                        (#[trigger] r.unwrap().collided@[k]).entity as int,
                    )
            },
{
    assert forall|i: int| 0 <= i < w.len() implies geom_ok(#[trigger] w[i]) by {
        assert(w0[i].wf());
        assert(mid_ok(sys, w0, w, i));
        if has_collider(w0[i]) {
            assert(w[i].pos == w0[i].pos && w[i].collider == w0[i].collider);
        } else {
            assert(w[i] == (Entity { result: None, ..w0[i] }));
        }
    }
    assert forall|i: int|
        0 <= i < w.len() && has_collider(#[trigger] w[i]) implies {
        let r = w[i].result;
        &&& r is Some
        &&& abs_spec(r.unwrap().collision.x as int) <= COORD_LIMIT
        &&& abs_spec(r.unwrap().collision.y as int) <= COORD_LIMIT
        &&& forall|k: int|
            0 <= k < r.unwrap().collided@.len() ==> !this_pair(
                w,
                ta,
                tb,
                i,
                (#[trigger] r.unwrap().collided@[k]).entity as int,
            )
    } by {
        assert(mid_ok(sys, w0, w, i));
        assert(has_collider(w0[i])) by {
            if !has_collider(w0[i]) {
                assert(w[i] == (Entity { result: None, ..w0[i] }));
            }
        }
        assert forall|k: int|
            0 <= k < w[i].result.unwrap().collided@.len() implies !this_pair(
            w,
            ta,
            tb,
            i,
            (#[trigger] w[i].result.unwrap().collided@[k]).entity as int,
        ) by {
            let j = (w[i].result.unwrap().collided@[k]).entity as int;
            assert(trig_cand(sys, w0, i, j));
            if this_pair(w, ta, tb, i, j) {
                lemma_mid_geom(sys, w0, w, ta, tb, i, j);
                assert(this_pair(w0, ta, tb, i, j));
                let ti = tag_view(w0[i]);
                let tj = tag_view(w0[j]);
                assert((ti == ta && tj == tb) || (ti == tb && tj == ta));
                if phase1 {
                    assert(covered_c(sys, e, ti, tj));
                    let e2 = choose|e2: int|
                        0 <= e2 < e && e2 < sys.collide_entries@.len() && pair_matches(
                            #[trigger] sys.collide_entries@[e2],
                            ti,
                            tj,
                        );
                    assert(pair_matches(sys.collide_entries@[e2], ta, tb));
                    assert(pair_matches(sys.collide_entries@[e], ta, tb));
                    assert(!pair_matches(
                        sys.collide_entries@[e2],
                        sys.collide_entries@[e].0@,
                        sys.collide_entries@[e].1@,
                    ));
                } else {
                    assert(covered_t(sys, e, ti, tj));
                    if covered_c(sys, sys.collide_entries@.len() as int, ti, tj) {
                        let e2 = choose|e2: int|
                            0 <= e2 < sys.collide_entries@.len() && e2
                                < sys.collide_entries@.len() && pair_matches(
                                #[trigger] sys.collide_entries@[e2],
                                ti,
                                tj,
                            );
                        assert(pair_matches(sys.collide_entries@[e2], ta, tb));
                        assert(list_has_pair(sys.collide_entries@, ta, tb));
                    } else {
                        let e2 = choose|e2: int|
                            0 <= e2 < e && e2 < sys.trigger_entries@.len() && pair_matches(
                                #[trigger] sys.trigger_entries@[e2],
                                ti,
                                tj,
                            );
                        assert(pair_matches(sys.trigger_entries@[e2], ta, tb));
                        assert(pair_matches(sys.trigger_entries@[e], ta, tb));
                        assert(!pair_matches(
                            sys.trigger_entries@[e2],
                            sys.trigger_entries@[e].0@,
                            sys.trigger_entries@[e].1@,
                        ));
                    }
                }
            }
        }
    }
}

/// Folding one pair pass back into the frame-level picture: the running
/// state advances, the finished entries stay finished, and the entry just
/// run joins them.
#[verifier::rlimit(100)]
proof fn lemma_run_entry_post(
    sys: &CollisionSystem,
    w0: Seq<Entity>,
    wpre: Seq<Entity>,
    wpost: Seq<Entity>,
    ta: Seq<char>,
    tb: Seq<char>,
    e: int,
    phase1: bool,
    it: bool,
    nc_done: int,
    nt_done: int,
)
    requires
        sys.wf(),
        w0.len() == wpre.len() == wpost.len(),
        forall|i: int| 0 <= i < w0.len() ==> #[trigger] w0[i].wf(),
        forall|i: int| 0 <= i < w0.len() ==> #[trigger] mid_ok(sys, w0, wpre, i),
        phase1 ==> 0 <= e < sys.collide_entries@.len() && ta == sys.collide_entries@[e].0@ && tb
            == sys.collide_entries@[e].1@ && it == sys.triggers(ta, tb) && nc_done == e && nt_done
            == 0,
        !phase1 ==> 0 <= e < sys.trigger_entries@.len() && ta == sys.trigger_entries@[e].0@ && tb
            == sys.trigger_entries@[e].1@ && it && nc_done == sys.collide_entries@.len() && nt_done
            == e && !list_has_pair(sys.collide_entries@, ta, tb),
        0 <= nc_done <= sys.collide_entries@.len(),
        0 <= nt_done <= sys.trigger_entries@.len(),
        forall|e2: int| 0 <= e2 < nc_done ==> #[trigger] c_entry_done(sys, w0, wpre, e2),
        forall|e2: int| 0 <= e2 < nt_done ==> #[trigger] t_entry_done(sys, w0, wpre, e2),
        forall|i: int|
            0 <= i < w0.len() && has_collider(#[trigger] w0[i]) ==> forall|k: int|
                0 <= k < wpre[i].result.unwrap().collided@.len() ==> !this_pair(
                    wpre,
                    ta,
                    tb,
                    i,
                    (#[trigger] wpre[i].result.unwrap().collided@[k]).entity as int,
                ),
        forall|i: int|
            0 <= i < w0.len() && !has_collider(#[trigger] w0[i]) ==> wpost[i] == wpre[i],
        forall|i: int|
            0 <= i < w0.len() && has_collider(#[trigger] w0[i]) ==> entry_result_ok(
                wpre,
                wpost,
                ta,
                tb,
                phase1,
                it,
                i,
            ),
    ensures
        forall|i: int| 0 <= i < w0.len() ==> #[trigger] mid_ok(sys, w0, wpost, i),
        forall|e2: int| 0 <= e2 < nc_done ==> #[trigger] c_entry_done(sys, w0, wpost, e2),
        forall|e2: int| 0 <= e2 < nt_done ==> #[trigger] t_entry_done(sys, w0, wpost, e2),
        phase1 ==> c_entry_done(sys, w0, wpost, e),
        !phase1 ==> t_entry_done(sys, w0, wpost, e),
        forall|i: int, k: int|
            0 <= i < w0.len() && has_collider(w0[i]) && 0 <= k
                < wpost[i].result.unwrap().collided@.len() ==> #[trigger] pair_matches_entry_or_prior(
                sys,
                w0,
                wpre,
                wpost,
                ta,
                tb,
                i,
                k,
            ),
{
    // monotone facts for persistence
    assert forall|i: int|
        0 <= i < w0.len() && has_collider(#[trigger] w0[i]) implies {
        &&& wpre[i].result is Some
        &&& wpost[i].result is Some
        &&& abs_spec(wpost[i].result.unwrap().collision.x as int) >= abs_spec(
            wpre[i].result.unwrap().collision.x as int,
        )
        &&& abs_spec(wpost[i].result.unwrap().collision.y as int) >= abs_spec(
            wpre[i].result.unwrap().collision.y as int,
        )
        &&& wpost[i].result.unwrap().collided@.len() >= wpre[i].result.unwrap().collided@.len()
        &&& wpost[i].result.unwrap().collided@.subrange(
            0,
            wpre[i].result.unwrap().collided@.len() as int,
        ) == wpre[i].result.unwrap().collided@
    } by {
        assert(mid_ok(sys, w0, wpre, i));
        assert(entry_result_ok(wpre, wpost, ta, tb, phase1, it, i));
        assert(entry_sofar_list(wpre, wpost, ta, tb, it, i));
        assert(entry_sofar_phys(wpre, wpost, ta, tb, phase1, i));
    }
    lemma_run_persist(sys, w0, wpre, wpost, nc_done, nt_done);
    // the entry just run is now done
    if phase1 {
        assert(c_entry_done(sys, w0, wpost, e)) by {
            assert forall|i: int, j: int| #[trigger] x_pair(w0, ta, tb, i, j) implies sink_x(
                w0[i],
                w0[j],
            ) <= abs_spec(wpost[i].result.unwrap().collision.x as int) by {
                lemma_mid_geom(sys, w0, wpre, ta, tb, i, j);
                assert(x_pair(wpre, ta, tb, i, j));
                assert(entry_result_ok(wpre, wpost, ta, tb, phase1, it, i));
            }
            assert forall|i: int, j: int| #[trigger] y_pair(w0, ta, tb, i, j) implies sink_y(
                w0[i],
                w0[j],
            ) <= abs_spec(wpost[i].result.unwrap().collision.y as int) by {
                lemma_mid_geom(sys, w0, wpre, ta, tb, i, j);
                assert(y_pair(wpre, ta, tb, i, j));
                assert(entry_result_ok(wpre, wpost, ta, tb, phase1, it, i));
            }
            if sys.triggers(ta, tb) {
                assert forall|i: int, j: int| #[trigger] t_pair(w0, ta, tb, i, j) implies recorded(
                    wpost,
                    i,
                    j,
                ) by {
                    lemma_mid_geom(sys, w0, wpre, ta, tb, i, j);
                    assert(t_pair(wpre, ta, tb, i, j));
                    assert(entry_result_ok(wpre, wpost, ta, tb, phase1, it, i));
                }
            }
        }
    } else {
        assert(t_entry_done(sys, w0, wpost, e)) by {
            assert forall|i: int, j: int| #[trigger] t_pair(w0, ta, tb, i, j) implies recorded(
                wpost,
                i,
                j,
            ) by {
                lemma_mid_geom(sys, w0, wpre, ta, tb, i, j);
                assert(t_pair(wpre, ta, tb, i, j));
                assert(entry_result_ok(wpre, wpost, ta, tb, phase1, it, i));
            }
        }
    }
    // the running per-entity state advances
    assert forall|i: int| 0 <= i < w0.len() implies #[trigger] mid_ok(sys, w0, wpost, i) by {
        assert(mid_ok(sys, w0, wpre, i));
        if !has_collider(w0[i]) {
            assert(wpost[i] == wpre[i]);
        } else {
            assert(entry_result_ok(wpre, wpost, ta, tb, phase1, it, i));
            assert(entry_sofar_phys(wpre, wpost, ta, tb, phase1, i));
            assert(entry_sofar_list(wpre, wpost, ta, tb, it, i));
            let rpre = wpre[i].result.unwrap();
            let rpost = wpost[i].result.unwrap();
            // correction soundness carries or points at this entry's pair
            if rpost.collision.x != rpre.collision.x {
                let j = choose|j: int|
                    #[trigger] x_pair(wpre, ta, tb, i, j) && rpost.collision.x as int
                        == corr_x_entry(wpre, ta, tb, i, j);
                lemma_mid_geom(sys, w0, wpre, ta, tb, i, j);
                assert(x_pair(w0, ta, tb, i, j));
                assert(phase1);
                sys.lemma_entry_corr(w0, e, i, j);
                assert(x_cand(sys, w0, i, j));
                assert(rpost.collision.x as int == corr_x(sys, w0, i, j));
            }
            if rpost.collision.y != rpre.collision.y {
                let j = choose|j: int|
                    #[trigger] y_pair(wpre, ta, tb, i, j) && rpost.collision.y as int
                        == corr_y_entry(wpre, ta, tb, i, j);
                lemma_mid_geom(sys, w0, wpre, ta, tb, i, j);
                assert(y_pair(w0, ta, tb, i, j));
                assert(phase1);
                sys.lemma_entry_corr(w0, e, i, j);
                assert(y_cand(sys, w0, i, j));
                assert(rpost.collision.y as int == corr_y(sys, w0, i, j));
            }
            // trigger records stay sound and distinct
            assert forall|k: int| #![trigger rpost.collided@[k]]
                0 <= k < rpost.collided@.len() implies (trig_cand(
                sys,
                w0,
                i,
                (rpost.collided@[k]).entity as int,
            ) && rpost.collided@[k].tag@ == tag_view(
                w0[(rpost.collided@[k]).entity as int],
            )) by {
                if k < rpre.collided@.len() {
                    assert(rpost.collided@.subrange(0, rpre.collided@.len() as int)[k]
                        == rpost.collided@[k]);
                    assert(rpost.collided@[k] == rpre.collided@[k]);
                } else {
                    let j = (rpost.collided@[k]).entity as int;
                    assert(t_pair(wpre, ta, tb, i, j));
                    lemma_mid_geom(sys, w0, wpre, ta, tb, i, j);
                    assert(t_pair(w0, ta, tb, i, j));
                    assert(sys.triggers(tag_view(w0[i]), tag_view(w0[j]))) by {
                        let ti = tag_view(w0[i]);
                        let tj = tag_view(w0[j]);
                        assert((ti == ta && tj == tb) || (ti == tb && tj == ta));
                        if phase1 {
                            assert(it);
                            assert(sys.triggers(ta, tb));
                        } else {
                            assert(pair_matches(sys.trigger_entries@[e], ti, tj));
                            assert(list_has_pair(sys.trigger_entries@, ti, tj));
                        }
                    }
                    assert(trig_cand(sys, w0, i, j));
                    assert(rpost.collided@[k].tag@ == tag_view(wpre[j]));
                    assert(tag_view(wpre[j]) == tag_view(w0[j])) by {
                        assert(mid_ok(sys, w0, wpre, j));
                    }
                }
            }
            assert forall|k1: int, k2: int|
                #![trigger rpost.collided@[k1], rpost.collided@[k2]]
                0 <= k1 < k2 < rpost.collided@.len() implies (rpost.collided@[k1]).entity != (
            rpost.collided@[k2]).entity by {
                if k2 < rpre.collided@.len() {
                    assert(rpost.collided@.subrange(0, rpre.collided@.len() as int)[k1]
                        == rpost.collided@[k1]);
                    assert(rpost.collided@.subrange(0, rpre.collided@.len() as int)[k2]
                        == rpost.collided@[k2]);
                } else if k1 >= rpre.collided@.len() {
                } else {
                    assert(rpost.collided@.subrange(0, rpre.collided@.len() as int)[k1]
                        == rpost.collided@[k1]);
                    assert(rpost.collided@[k1] == rpre.collided@[k1]);
                    let j1 = (rpre.collided@[k1]).entity as int;
                    let j2 = (rpost.collided@[k2]).entity as int;
                    assert(!this_pair(wpre, ta, tb, i, j1));
                    assert(t_pair(wpre, ta, tb, i, j2));
                    if j1 == j2 {
                        assert(this_pair(wpre, ta, tb, i, j1));
                    }
                }
            }
        }
    }
    // the recorded tag pairs are the entry's or earlier ones
    assert forall|i: int, k: int|
        0 <= i < w0.len() && has_collider(w0[i]) && 0 <= k
            < wpost[i].result.unwrap().collided@.len() implies #[trigger] pair_matches_entry_or_prior(
        sys,
        w0,
        wpre,
        wpost,
        ta,
        tb,
        i,
        k,
    ) by {
        let rpre = wpre[i].result.unwrap();
        let rpost = wpost[i].result.unwrap();
        assert(entry_result_ok(wpre, wpost, ta, tb, phase1, it, i));
        assert(entry_sofar_list(wpre, wpost, ta, tb, it, i));
        if k < rpre.collided@.len() {
            assert(rpost.collided@.subrange(0, rpre.collided@.len() as int)[k]
                == rpost.collided@[k]);
            assert(rpost.collided@[k] == rpre.collided@[k]);
        } else {
            let j = (rpost.collided@[k]).entity as int;
            assert(t_pair(wpre, ta, tb, i, j));
            lemma_mid_geom(sys, w0, wpre, ta, tb, i, j);
            assert(t_pair(w0, ta, tb, i, j));
        }
    }
}

/// A freshly recorded partner names this entry's tag pair; an old one was
/// already in the list before the entry ran.
spec fn pair_matches_entry_or_prior(
    sys: &CollisionSystem,
    w0: Seq<Entity>,
    wpre: Seq<Entity>,
    wpost: Seq<Entity>,
    ta: Seq<char>,
    tb: Seq<char>,
    i: int,
    k: int,
) -> bool {
    let rpre = wpre[i].result.unwrap();
    let rpost = wpost[i].result.unwrap();
    if k < rpre.collided@.len() {
        rpost.collided@[k] == rpre.collided@[k]
    } else {
        let j = (rpost.collided@[k]).entity as int;
        (tag_view(w0[i]) == ta && tag_view(w0[j]) == tb) || (tag_view(w0[i]) == tb && tag_view(
            w0[j],
        ) == ta)
    }
}

/// A trigger entry whose pair also collides was already handled by the
/// collide pass.
proof fn lemma_run_entry_skip(sys: &CollisionSystem, w0: Seq<Entity>, w: Seq<Entity>, e: int)
    requires
        sys.wf(),
        0 <= e < sys.trigger_entries@.len(),
        list_has_pair(sys.collide_entries@, sys.trigger_entries@[e].0@, sys.trigger_entries@[e].1@),
        forall|e2: int|
            0 <= e2 < sys.collide_entries@.len() ==> #[trigger] c_entry_done(sys, w0, w, e2),
    ensures
        t_entry_done(sys, w0, w, e),
{
    let ta = sys.trigger_entries@[e].0@;
    let tb = sys.trigger_entries@[e].1@;
    let e2 = choose|e2: int|
        0 <= e2 < sys.collide_entries@.len() && pair_matches(
            #[trigger] sys.collide_entries@[e2],
            ta,
            tb,
        );
    let ca = sys.collide_entries@[e2].0@;
    let cb = sys.collide_entries@[e2].1@;
    assert(c_entry_done(sys, w0, w, e2));
    assert(sys.triggers(ca, cb)) by {
        assert(pair_matches(sys.trigger_entries@[e], ca, cb));
        assert(list_has_pair(sys.trigger_entries@, ca, cb));
    }
    assert forall|i: int, j: int| #[trigger] t_pair(w0, ta, tb, i, j) implies recorded(
        w,
        i,
        j,
    ) by {
        assert(t_pair(w0, ca, cb, i, j)) by {
            assert(this_pair(w0, ta, tb, i, j));
            assert((ca == ta && cb == tb) || (ca == tb && cb == ta));
        }
    }
}

impl CollisionSystem {
    /// The per-frame collision pass: reset, one broad-and-narrow-phase walk
    /// per registered tag pair, then the physics response for every
    /// corrected rigidbody.
    #[verifier::loop_isolation(false)]
    #[verifier::rlimit(100)]
    pub fn run(&self, world: &mut Vec<Entity>)
        requires
            self.wf(),
            old(world)@.len() < 0x100_0000,
            forall|i: int| 0 <= i < old(world)@.len() ==> #[trigger] old(world)@[i].wf(),
        ensures
            final(world)@.len() == old(world)@.len(),
            forall|i: int|
                0 <= i < old(world)@.len() ==> #[trigger] run_ok(
                    self,
                    old(world)@,
                    final(world)@,
                    i,
                ),
    {
        let ghost w0 = old(world)@;
        reset_results(world);
        proof {
            assert forall|i: int| 0 <= i < w0.len() implies #[trigger] mid_ok(
                self,
                w0,
                world@,
                i,
            ) by {
                assert(reset_rel(w0[i], world@[i]));
            }
        }
        let nc = self.collide_entries.len();
        let mut ec: usize = 0;
        while ec < nc
            invariant
                ec <= nc,
                world@.len() == w0.len(),
                forall|i: int| 0 <= i < w0.len() ==> #[trigger] mid_ok(self, w0, world@, i),
                forall|e: int| 0 <= e < ec ==> #[trigger] c_entry_done(self, w0, world@, e),
                forall|i: int, k: int|
                    0 <= i < w0.len() && has_collider(#[trigger] w0[i]) && 0 <= k
                        < world@[i].result.unwrap().collided@.len() ==> covered_c(
                        self,
                        ec as int,
                        tag_view(w0[i]),
                        tag_view(
                            w0[(#[trigger] world@[i].result.unwrap().collided@[k]).entity as int],
                        ),
                    ),
            decreases nc - ec,
        {
            let tag_a = self.collide_entries[ec].0.clone();
            let tag_b = self.collide_entries[ec].1.clone();
            let it = Self::has_entry(&self.trigger_entries, &tag_a, &tag_b);
            let ghost wpre = world@;
            proof {
                lemma_run_entry_pre(self, w0, wpre, tag_a@, tag_b@, ec as int, true);
            }
            self.eval_entry(world, &tag_a, &tag_b, true, it);
            proof {
                assert forall|i2: int|
                    0 <= i2 < w0.len() && !has_collider(#[trigger] w0[i2]) implies world@[i2]
                    == wpre[i2] by {
                    assert(mid_ok(self, w0, wpre, i2));
                    assert(wpre[i2] == (Entity { result: None, ..w0[i2] }));
                    assert(!has_collider(wpre[i2]));
                }
                assert forall|i2: int|
                    0 <= i2 < w0.len() && has_collider(#[trigger] w0[i2]) implies entry_result_ok(
                    wpre,
                    world@,
                    tag_a@,
                    tag_b@,
                    true,
                    it,
                    i2,
                ) by {
                    assert(mid_ok(self, w0, wpre, i2));
                    assert(has_collider(wpre[i2]));
                }
                lemma_run_entry_post(
                    self,
                    w0,
                    wpre,
                    world@,
                    tag_a@,
                    tag_b@,
                    ec as int,
                    true,
                    it,
                    ec as int,
                    0,
                );
                assert forall|i: int, k: int|
                    0 <= i < w0.len() && has_collider(#[trigger] w0[i]) && 0 <= k
                        < world@[i].result.unwrap().collided@.len() implies covered_c(
                    self,
                    ec as int + 1,
                    tag_view(w0[i]),
                    tag_view(
                        w0[(#[trigger] world@[i].result.unwrap().collided@[k]).entity as int],
                    ),
                ) by {
                    assert(pair_matches_entry_or_prior(
                        self,
                        w0,
                        wpre,
                        world@,
                        tag_a@,
                        tag_b@,
                        i,
                        k,
                    ));
                    if k < wpre[i].result.unwrap().collided@.len() {
                        let j = (wpre[i].result.unwrap().collided@[k]).entity as int;
                        assert(covered_c(self, ec as int, tag_view(w0[i]), tag_view(w0[j])));
                        let e2 = choose|e2: int|
                            0 <= e2 < ec && e2 < self.collide_entries@.len() && pair_matches(
                                #[trigger] self.collide_entries@[e2],
                                tag_view(w0[i]),
                                tag_view(w0[j]),
                            );
                        assert(0 <= e2 < ec as int + 1);
                    } else {
                        assert(pair_matches(
                            self.collide_entries@[ec as int],
                            tag_view(w0[i]),
                            tag_view(
                                w0[(world@[i].result.unwrap().collided@[k]).entity as int],
                            ),
                        ));
                    }
                }
            }
            ec = ec + 1;
        }
        let nt = self.trigger_entries.len();
        let mut et: usize = 0;
        while et < nt
            invariant
                et <= nt,
                world@.len() == w0.len(),
                forall|i: int| 0 <= i < w0.len() ==> #[trigger] mid_ok(self, w0, world@, i),
                forall|e: int| 0 <= e < nc ==> #[trigger] c_entry_done(self, w0, world@, e),
                forall|e: int| 0 <= e < et ==> #[trigger] t_entry_done(self, w0, world@, e),
                forall|i: int, k: int|
                    0 <= i < w0.len() && has_collider(#[trigger] w0[i]) && 0 <= k
                        < world@[i].result.unwrap().collided@.len() ==> covered_t(
                        self,
                        et as int,
                        tag_view(w0[i]),
                        tag_view(
                            w0[(#[trigger] world@[i].result.unwrap().collided@[k]).entity as int],
                        ),
                    ),
            decreases nt - et,
        {
            let tag_a = self.trigger_entries[et].0.clone();
            let tag_b = self.trigger_entries[et].1.clone();
            let in_collide = Self::has_entry(&self.collide_entries, &tag_a, &tag_b);
            if !in_collide {
                let ghost wpre = world@;
                proof {
                    lemma_run_entry_pre(self, w0, wpre, tag_a@, tag_b@, et as int, false);
                }
                self.eval_entry(world, &tag_a, &tag_b, false, true);
                proof {
                assert forall|i2: int|
                    0 <= i2 < w0.len() && !has_collider(#[trigger] w0[i2]) implies world@[i2]
                    == wpre[i2] by {
                    assert(mid_ok(self, w0, wpre, i2));
                    assert(wpre[i2] == (Entity { result: None, ..w0[i2] }));
                    assert(!has_collider(wpre[i2]));
                }
                    assert forall|i2: int|
                        0 <= i2 < w0.len() && has_collider(
                        #[trigger] w0[i2],
                    ) implies entry_result_ok(wpre, world@, tag_a@, tag_b@, false, true, i2) by {
                        assert(mid_ok(self, w0, wpre, i2));
                        assert(has_collider(wpre[i2]));
                    }
                    lemma_run_entry_post(
                        self,
                        w0,
                        wpre,
                        world@,
                        tag_a@,
                        tag_b@,
                        et as int,
                        false,
                        true,
                        nc as int,
                        et as int,
                    );
                    assert forall|i: int, k: int|
                        0 <= i < w0.len() && has_collider(#[trigger] w0[i]) && 0 <= k
                            < world@[i].result.unwrap().collided@.len() implies covered_t(
                        self,
                        et as int + 1,
                        tag_view(w0[i]),
                        tag_view(
                            w0[(#[trigger] world@[i].result.unwrap().collided@[k]).entity as int],
                        ),
                    ) by {
                        assert(pair_matches_entry_or_prior(
                            self,
                            w0,
                            wpre,
                            world@,
                            tag_a@,
                            tag_b@,
                            i,
                            k,
                        ));
                        if k < wpre[i].result.unwrap().collided@.len() {
                            let j = (wpre[i].result.unwrap().collided@[k]).entity as int;
                            assert(covered_t(self, et as int, tag_view(w0[i]), tag_view(w0[j])));
                        } else {
                            assert(pair_matches(
                                self.trigger_entries@[et as int],
                                tag_view(w0[i]),
                                tag_view(
                                    w0[(world@[i].result.unwrap().collided@[k]).entity as int],
                                ),
                            ));
                        }
                    }
                }
            } else {
                proof {
                    lemma_run_entry_skip(self, w0, world@, et as int);
                    assert forall|i: int, k: int|
                        0 <= i < w0.len() && has_collider(#[trigger] w0[i]) && 0 <= k
                            < world@[i].result.unwrap().collided@.len() implies covered_t(
                        self,
                        et as int + 1,
                        tag_view(w0[i]),
                        tag_view(
                            w0[(#[trigger] world@[i].result.unwrap().collided@[k]).entity as int],
                        ),
                    ) by {
                        let j = (world@[i].result.unwrap().collided@[k]).entity as int;
                        assert(covered_t(self, et as int, tag_view(w0[i]), tag_view(w0[j])));
                    }
                }
            }
            et = et + 1;
        }
        let ghost wmid = world@;
        let n = world.len();
        let mut i: usize = 0;
        while i < n
            invariant
                i <= n,
                n == world@.len() == w0.len(),
                forall|k: int| i <= k < n ==> #[trigger] world@[k] == wmid[k],
                forall|k: int| 0 <= k < i ==> #[trigger] run_ok(self, w0, world@, k),
            decreases n - i,
        {
            let ghost wprev = world@;
            proof {
                assert(world@[i as int] == wmid[i as int]);
                assert(mid_ok(self, w0, wmid, i as int));
            }
            let mut cvec = Vec2 { x: 0, y: 0 };
            let mut act: bool = false;
            match &world[i].result {
                Some(r) => {
                    cvec = r.collision;
                    if !(r.collision.x == 0 && r.collision.y == 0) {
                        act = true;
                    }
                },
                None => {},
            }
            let obody = world[i].body;
            let opos = world[i].pos;
            match obody {
                Some(b) => {
                    if act {
                        proof {
                            assert(has_collider(w0[i as int])) by {
                                if !has_collider(w0[i as int]) {
                                    assert(wmid[i as int] == (Entity {
                                        result: None,
                                        ..w0[i as int]
                                    }));
                                }
                            }
                            assert(w0[i as int].wf());
                            assert(b == w0[i as int].body.unwrap());
                            assert(opos == w0[i as int].pos);
                        }
                        let nv = reflect(b.velocity, cvec, b.bounciness, b.friction);
                        let npx = opos.x + cvec.x;
                        let npy = opos.y + cvec.y;
                        let er = &mut world[i];
                        er.pos = Vec2 { x: npx, y: npy };
                        er.body = Some(Rigidbody { velocity: nv, ..b });
                    }
                },
                None => {},
            }
            proof {
                if has_collider(w0[i as int]) {
                    lemma_run_final(self, w0, wmid, i as int);
                    assert(world@[i as int].result == wmid[i as int].result);
                    assert(mid_ok(self, w0, wmid, i as int));
                    assert(same_but_result(w0[i as int], wmid[i as int]));
                    assert(run_ok(self, w0, world@, i as int));
                } else {
                    assert(wmid[i as int] == (Entity { result: None, ..w0[i as int] }));
                    assert(world@[i as int] == wmid[i as int]);
                    assert(run_ok(self, w0, world@, i as int));
                }
                assert forall|k: int| 0 <= k < i + 1 implies #[trigger] run_ok(
                    self,
                    w0,
                    world@,
                    k,
                ) by {
                    if k < i {
                        assert(world@[k] == wprev[k]);
                        assert(run_ok(self, w0, wprev, k));
                        lemma_run_ok_local(self, w0, wprev, world@, k);
                    }
                }
            }
            i = i + 1;
        }
    }
}

/// Whether an entity satisfies the frame contract depends only on its own
/// final state.
proof fn lemma_run_ok_local(
    sys: &CollisionSystem,
    w0: Seq<Entity>,
    wa: Seq<Entity>,
    wb: Seq<Entity>,
    i: int,
)
    requires
        0 <= i < w0.len(),
        w0.len() == wa.len() == wb.len(),
        wb[i] == wa[i],
        run_ok(sys, w0, wa, i),
    ensures
        run_ok(sys, w0, wb, i),
{
    if has_collider(w0[i]) {
        assert forall|j: int| #[trigger] trig_cand(sys, w0, i, j) implies recorded(wb, i, j) by {
            assert(recorded(wa, i, j));
            let k = choose|k: int|
                0 <= k < wa[i].result.unwrap().collided@.len() && (
                #[trigger] wa[i].result.unwrap().collided@[k]).entity as int == j;
            assert(wb[i].result.unwrap().collided@[k].entity as int == j);
        }
    }
}

/// At the end of the pair passes, every candidate of the whole matrix is
/// reflected in the recorded corrections and trigger lists.
proof fn lemma_run_final(sys: &CollisionSystem, w0: Seq<Entity>, wmid: Seq<Entity>, i: int)
    requires
        sys.wf(),
        0 <= i < w0.len(),
        w0.len() == wmid.len(),
        forall|k: int| 0 <= k < w0.len() ==> #[trigger] mid_ok(sys, w0, wmid, k),
        forall|e: int|
            0 <= e < sys.collide_entries@.len() ==> #[trigger] c_entry_done(sys, w0, wmid, e),
        forall|e: int|
            0 <= e < sys.trigger_entries@.len() ==> #[trigger] t_entry_done(sys, w0, wmid, e),
        has_collider(w0[i]),
    ensures
        forall|j: int|
            #[trigger] x_cand(sys, w0, i, j) ==> sink_x(w0[i], w0[j]) <= abs_spec(
                wmid[i].result.unwrap().collision.x as int,
            ),
        forall|j: int|
            #[trigger] y_cand(sys, w0, i, j) ==> sink_y(w0[i], w0[j]) <= abs_spec(
                wmid[i].result.unwrap().collision.y as int,
            ),
        forall|j: int| #[trigger] trig_cand(sys, w0, i, j) ==> recorded(wmid, i, j),
{
    assert forall|j: int| #[trigger] x_cand(sys, w0, i, j) implies sink_x(w0[i], w0[j])
        <= abs_spec(wmid[i].result.unwrap().collision.x as int) by {
        let ti = tag_view(w0[i]);
        let tj = tag_view(w0[j]);
        assert(sys.collides(ti, tj));
        let e = choose|e: int|
            0 <= e < sys.collide_entries@.len() && pair_matches(
                #[trigger] sys.collide_entries@[e],
                ti,
                tj,
            );
        assert(x_pair(w0, sys.collide_entries@[e].0@, sys.collide_entries@[e].1@, i, j));
        assert(c_entry_done(sys, w0, wmid, e));
    }
    assert forall|j: int| #[trigger] y_cand(sys, w0, i, j) implies sink_y(w0[i], w0[j])
        <= abs_spec(wmid[i].result.unwrap().collision.y as int) by {
        let ti = tag_view(w0[i]);
        let tj = tag_view(w0[j]);
        assert(sys.collides(ti, tj));
        let e = choose|e: int|
            0 <= e < sys.collide_entries@.len() && pair_matches(
                #[trigger] sys.collide_entries@[e],
                ti,
                tj,
            );
        assert(y_pair(w0, sys.collide_entries@[e].0@, sys.collide_entries@[e].1@, i, j));
        assert(c_entry_done(sys, w0, wmid, e));
    }
    assert forall|j: int| #[trigger] trig_cand(sys, w0, i, j) implies recorded(wmid, i, j) by {
        let ti = tag_view(w0[i]);
        let tj = tag_view(w0[j]);
        assert(sys.triggers(ti, tj));
        let e = choose|e: int|
            0 <= e < sys.trigger_entries@.len() && pair_matches(
                #[trigger] sys.trigger_entries@[e],
                ti,
                tj,
            );
        assert(t_pair(w0, sys.trigger_entries@[e].0@, sys.trigger_entries@[e].1@, i, j));
        assert(t_entry_done(sys, w0, wmid, e));
    }
}

/// Pushing two overlapping boxes apart by the recorded correction always
/// separates them on the resolved axis: re-running the overlap test on the
/// corrected positions finds no penetration there. Stated per axis over
/// sizes and centers.
pub proof fn lemma_resolution_separates(aw: int, ax: int, bw: int, bx: int)
    requires
        aw > 0,
        bw > 0,
        sinking2(aw, ax, bw, bx) > 0,
    ensures
        ({
            let s = (sinking2(aw, ax, bw, bx) + 1) / 2;
            let ca = if bx - ax > 0 {
                -s
            } else {
                s
            };
            sinking2(aw, ax + ca, bw, bx - ca) <= -sinking2(aw, ax, bw, bx)
        }),
{
    let n = sinking2(aw, ax, bw, bx);
    let s = (n + 1) / 2;
    vstd::arithmetic::div_mod::lemma_fundamental_div_mod(n + 1, 2);
    vstd::arithmetic::div_mod::lemma_mod_division_less_than_divisor(n + 1, 2);
    assert(2 * s >= n);
    assert(s >= 1);
}

impl Default for CollisionSystem {
    /// The empty matrix over the default playfield.
    fn default() -> (r: CollisionSystem)
        ensures
            r.wf(),
            r.shape() == crate::quadtree::shape_of(
                4,
                0,
                0,
                640 * FX_ONE as int,
                480 * FX_ONE as int,
            ),
            forall|a: Seq<char>, b: Seq<char>| !(#[trigger] r.collides(a, b)),
            forall|a: Seq<char>, b: Seq<char>| !(#[trigger] r.triggers(a, b)),
    {
        CollisionSystem::new_default()
    }
}

} // verus!
