//! The game's wiring: the systems the collision engine contributes to a
//! frame, with the game's static tag matrix registered on them.

use vstd::prelude::*;

verus! {

use crate::collision::CollisionSystem;
use crate::components::{RigidbodySystem, FX_ONE};

/// Builds the game's physics systems: the rigidbody integrator and the
/// collision system with the game's collide and trigger pairs.
#[derive(Default)]
pub struct GameBundle;

impl GameBundle {
    /// The integrator, and the collision matrix the game plays with:
    /// players, bullets, items and particles collide with walls; bullets,
    /// items and areas trigger against players, and bullets against walls.
    pub fn build(self) -> (r: (RigidbodySystem, CollisionSystem))
        ensures
            r.1.wf(),
            r.1.shape() == crate::quadtree::shape_of(
                4,
                0,
                0,
                640 * FX_ONE as int,
                480 * FX_ONE as int,
            ),
            forall|x: Seq<char>, y: Seq<char>|
                #[trigger] r.1.collides(x, y) == (pair_of(x, y, "Player"@, "Wall"@) || pair_of(
                    x,
                    y,
                    "Bullet"@,
                    "Wall"@,
                ) || pair_of(x, y, "Item"@, "Wall"@) || pair_of(x, y, "Particle"@, "Wall"@)),
            forall|x: Seq<char>, y: Seq<char>|
                #[trigger] r.1.triggers(x, y) == (pair_of(x, y, "Bullet"@, "Wall"@) || pair_of(
                    x,
                    y,
                    "Player"@,
                    "Bullet"@,
                ) || pair_of(x, y, "Player"@, "Item"@) || pair_of(x, y, "Player"@, "Area"@)),
    {
        let collision = CollisionSystem::new_default().collide("Player", "Wall").collide(
            "Bullet",
            "Wall",
        ).collide("Item", "Wall").collide("Particle", "Wall").trigger("Bullet", "Wall").trigger(
            "Player",
            "Bullet",
        ).trigger("Player", "Item").trigger("Player", "Area");
        (RigidbodySystem, collision)
    }
}

/// The unordered pair `{x, y}` is `{a, b}`.
pub open spec fn pair_of(x: Seq<char>, y: Seq<char>, a: Seq<char>, b: Seq<char>) -> bool {
    (x == a && y == b) || (x == b && y == a)
}

} // verus!
