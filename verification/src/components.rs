//! The collision engine's data model: fixed-point 2D vectors, box colliders,
//! rigidbodies, per-frame collision results, and the rigidbody integrator.
//!
//! All coordinates, sizes and velocities are fixed-point `i64` values scaled
//! by [`FX_ONE`]; coefficients in `[0, 1]` (drag, friction) likewise, with
//! `FX_ONE` standing for `1.0`.

use vstd::prelude::*;

verus! {

use crate::num::{abs_spec, clamp_spec, div_trunc, abs_i64, clamp_i64, div_trunc_i64};

/// One whole unit in fixed-point coordinates (`1.0`).
pub const FX_ONE: i64 = 256;

/// Velocity is clamped to five units per frame on each axis before a body is
/// moved.
pub const SPEED_CAP: i64 = 5 * 256;

/// Positions and grid bounds stay within this magnitude.
pub const COORD_LIMIT: i64 = 0x1_0000_0000;

/// Velocities and accelerations stay within this magnitude.
pub const VEL_LIMIT: i64 = 0x100_0000;

/// Bounciness (restitution) stays within this magnitude (4096 units).
pub const BOUNCE_LIMIT: i64 = 0x10_0000;

/// A 2D vector in fixed-point units.
#[derive(Clone, Copy, PartialEq, Eq, Structural, Debug)]
pub struct Vec2 {
    pub x: i64,
    pub y: i64,
}

impl Vec2 {
    pub fn new(x: i64, y: i64) -> (r: Vec2)
        ensures
            r.x == x,
            r.y == y,
    {
        Vec2 { x, y }
    }

    pub fn zeros() -> (r: Vec2)
        ensures
            r.x == 0,
            r.y == 0,
    {
        Vec2 { x: 0, y: 0 }
    }
}

/// A per-entity velocity/acceleration state with simple material response
/// parameters, integrated every frame.
#[derive(Clone, Copy, Debug)]
pub struct Rigidbody {
    pub velocity: Vec2,
    pub acceleration: Vec2,
    /// Per-frame velocity decay in `[0, FX_ONE]`.
    pub drag: i64,
    /// Restitution: fraction of normal velocity reflected, `FX_ONE` = fully
    /// elastic.
    pub bounciness: i64,
    /// Per-collision tangential decay in `[0, FX_ONE]`.
    pub friction: i64,
    /// When set, the integrator records the velocity as the entity's facing
    /// direction.
    pub auto_rotate: bool,
}

impl Rigidbody {
    /// The parameter and magnitude bounds under which the integrator and the
    /// collision response are free of overflow.
    pub open spec fn wf(self) -> bool {
        &&& 0 <= self.drag <= FX_ONE
        &&& 0 <= self.friction <= FX_ONE
        &&& 0 <= self.bounciness <= BOUNCE_LIMIT
        &&& abs_spec(self.velocity.x as int) <= VEL_LIMIT
        &&& abs_spec(self.velocity.y as int) <= VEL_LIMIT
        &&& abs_spec(self.acceleration.x as int) <= VEL_LIMIT
        &&& abs_spec(self.acceleration.y as int) <= VEL_LIMIT
    }
}

impl Default for Rigidbody {
    /// A body at rest with no drag, no bounce, no friction.
    fn default() -> (r: Rigidbody)
        ensures
            r.velocity == (Vec2 { x: 0, y: 0 }),
            r.acceleration == (Vec2 { x: 0, y: 0 }),
            r.drag == 0,
            r.bounciness == 0,
            r.friction == 0,
            !r.auto_rotate,
            r.wf(),
    {
        Rigidbody {
            velocity: Vec2 { x: 0, y: 0 },
            acceleration: Vec2 { x: 0, y: 0 },
            drag: 0,
            bounciness: 0,
            friction: 0,
            auto_rotate: false,
        }
    }
}

/// An axis-aligned box collider: a `width` by `height` box centered on the
/// entity's position, carrying a category tag.
#[derive(Clone, Debug)]
pub struct RectCollider {
    pub tag: String,
    pub width: i64,
    pub height: i64,
}

impl RectCollider {
    /// Positive, bounded box sizes.
    pub open spec fn wf(self) -> bool {
        &&& 0 < self.width <= COORD_LIMIT
        &&& 0 < self.height <= COORD_LIMIT
    }

    pub fn new(tag: &str, width: i64, height: i64) -> (r: RectCollider)
        requires
            0 < width <= COORD_LIMIT,
            0 < height <= COORD_LIMIT,
        ensures
            r.tag@ == tag@,
            r.width == width,
            r.height == height,
            r.wf(),
    {
        RectCollider { tag: tag.to_owned(), width, height }
    }
}

/// One triggering contact: the partner entity (an index into the world) and
/// its collider tag.
#[derive(Clone, Debug)]
pub struct Collided {
    pub entity: usize,
    pub tag: String,
}

/// Per-entity output of a collision pass: every trigger partner touched this
/// frame, and the single largest-penetration correction vector.
#[derive(Clone, Debug)]
pub struct ColliderResult {
    pub collided: Vec<Collided>,
    pub collision: Vec2,
}

impl ColliderResult {
    pub fn new() -> (r: ColliderResult)
        ensures
            r.collided@.len() == 0,
            r.collision == (Vec2 { x: 0, y: 0 }),
    {
        ColliderResult { collided: Vec::new(), collision: Vec2 { x: 0, y: 0 } }
    }
}

/// One world entity as the collision engine sees it: a position, an optional
/// collider, an optional rigidbody, the engine's per-frame result, and a
/// facing direction kept up to date for auto-rotating bodies.
#[derive(Clone, Debug)]
pub struct Entity {
    pub pos: Vec2,
    pub facing: Vec2,
    pub collider: Option<RectCollider>,
    pub body: Option<Rigidbody>,
    pub result: Option<ColliderResult>,
}

impl Entity {
    /// Bounds under which a frame of integration and collision response is
    /// free of overflow.
    pub open spec fn wf(self) -> bool {
        &&& abs_spec(self.pos.x as int) <= COORD_LIMIT
        &&& abs_spec(self.pos.y as int) <= COORD_LIMIT
        &&& (self.collider is Some ==> self.collider.unwrap().wf())
        &&& (self.body is Some ==> self.body.unwrap().wf())
    }

    pub fn new(pos: Vec2) -> (r: Entity)
        requires
            abs_spec(pos.x as int) <= COORD_LIMIT,
            abs_spec(pos.y as int) <= COORD_LIMIT,
        ensures
            r.pos == pos,
            r.facing == (Vec2 { x: 0, y: 0 }),
            r.collider is None,
            r.body is None,
            r.result is None,
            r.wf(),
    {
        Entity {
            pos,
            facing: Vec2 { x: 0, y: 0 },
            collider: None,
            body: None,
            result: None,
        }
    }
}

/// Velocity clamped to the per-frame speed cap.
pub open spec fn clamp_speed(v: int) -> int {
    clamp_spec(v, -SPEED_CAP as int, SPEED_CAP as int)
}

/// One axis of the drag step: `v - v * drag` with fixed-point truncation.
pub open spec fn drag_step(v: int, drag: int) -> int {
    v - div_trunc(v * drag, FX_ONE as int)
}

/// What one explicit Euler step does to a body at `pos`: velocity picks up
/// the acceleration and is clamped to the speed cap on each axis, the
/// position moves by that clamped velocity, and drag then decays it.
pub open spec fn integrate_spec(pos: Vec2, b: Rigidbody) -> (Vec2, Rigidbody) {
    let cx = clamp_speed(b.velocity.x + b.acceleration.x);
    let cy = clamp_speed(b.velocity.y + b.acceleration.y);
    let px = pos.x + cx;
    let py = pos.y + cy;
    let wx = drag_step(cx, b.drag as int);
    let wy = drag_step(cy, b.drag as int);
    (
        Vec2 { x: px as i64, y: py as i64 },
        Rigidbody { velocity: Vec2 { x: wx as i64, y: wy as i64 }, ..b },
    )
}

/// What the integrator does to one entity: nothing without a body, one Euler
/// step with it; an auto-rotating body records its new velocity as the
/// entity's facing direction.
pub open spec fn step_entity(e: Entity) -> Entity {
    if e.body is Some {
        let b = e.body.unwrap();
        let (p, nb) = integrate_spec(e.pos, b);
        Entity {
            pos: p,
            body: Some(nb),
            facing: if b.auto_rotate {
                nb.velocity
            } else {
                e.facing
            },
            ..e
        }
    } else {
        e
    }
}

/// One explicit Euler step of a body at `pos`, exactly [`integrate_spec`].
pub fn integrate(pos: Vec2, b: Rigidbody) -> (r: (Vec2, Rigidbody))
    requires
        b.wf(),
        abs_spec(pos.x as int) <= COORD_LIMIT,
        abs_spec(pos.y as int) <= COORD_LIMIT,
    ensures
        r == integrate_spec(pos, b),
{
    let cx = clamp_i64(b.velocity.x + b.acceleration.x, -SPEED_CAP, SPEED_CAP);
    let cy = clamp_i64(b.velocity.y + b.acceleration.y, -SPEED_CAP, SPEED_CAP);
    let px = pos.x + cx;
    let py = pos.y + cy;
    proof {
        assert(abs_spec(cx * b.drag) <= SPEED_CAP * FX_ONE) by (nonlinear_arith)
            requires
                abs_spec(cx as int) <= SPEED_CAP,
                0 <= b.drag <= FX_ONE,
        ;
        assert(abs_spec(cy * b.drag) <= SPEED_CAP * FX_ONE) by (nonlinear_arith)
            requires
                abs_spec(cy as int) <= SPEED_CAP,
                0 <= b.drag <= FX_ONE,
        ;
        crate::num::lemma_div_trunc_shrinks(cx * b.drag, FX_ONE as int);
        crate::num::lemma_div_trunc_shrinks(cy * b.drag, FX_ONE as int);
    }
    let wx = cx - div_trunc_i64(cx * b.drag, FX_ONE);
    let wy = cy - div_trunc_i64(cy * b.drag, FX_ONE);
    (
        Vec2 { x: px, y: py },
        Rigidbody { velocity: Vec2 { x: wx, y: wy }, ..b },
    )
}

/// The rigidbody integrator: one explicit Euler step per entity with a body,
/// run once per frame before collision detection.
pub struct RigidbodySystem;

impl RigidbodySystem {
    /// Steps every entity that has a rigidbody: `velocity += acceleration`,
    /// each axis of the velocity is clamped to [`SPEED_CAP`], the position
    /// moves by the clamped velocity, then `velocity -= velocity * drag`.
    /// An auto-rotating body records its new velocity as the entity's
    /// facing direction.
    pub fn run(&self, world: &mut Vec<Entity>)
        requires
            forall|i: int| 0 <= i < old(world)@.len() ==> #[trigger] old(world)@[i].wf(),
        ensures
            final(world)@.len() == old(world)@.len(),
            forall|i: int|
                0 <= i < old(world)@.len() ==> #[trigger] final(world)@[i] == step_entity(
                    old(world)@[i],
                ),
    {
        let n = world.len();
        let mut i: usize = 0;
        while i < n
            invariant
                n == world@.len(),
                n == old(world)@.len(),
                i <= n,
                forall|k: int| 0 <= k < n ==> #[trigger] old(world)@[k].wf(),
                forall|k: int| 0 <= k < i ==> #[trigger] world@[k] == step_entity(old(world)@[k]),
                forall|k: int| i <= k < n ==> #[trigger] world@[k] == old(world)@[k],
            decreases n - i,
        {
            proof {
                assert(world@[i as int] == old(world)@[i as int]);
                assert(old(world)@[i as int].wf());
            }
            let pos = world[i].pos;
            let ob = world[i].body;
            match ob {
                Some(b) => {
                    let (np, nb) = integrate(pos, b);
                    let er = &mut world[i];
                    er.pos = np;
                    er.body = Some(nb);
                    if b.auto_rotate {
                        er.facing = nb.velocity;
                    }
                },
                None => {},
            }
            i = i + 1;
        }
    }
}

} // verus!
