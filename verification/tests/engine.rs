use collision2d::collision::{reflect, sinking_x, sinking_y, CollisionSystem};
use collision2d::components::{
    Entity, RectCollider, Rigidbody, RigidbodySystem, Vec2, FX_ONE,
};

fn unit(v: i64) -> i64 {
    v * FX_ONE
}

fn boxed(tag: &str, x: i64, y: i64, w: i64, h: i64) -> Entity {
    let mut e = Entity::new(Vec2::new(unit(x), unit(y)));
    e.collider = Some(RectCollider::new(tag, unit(w), unit(h)));
    e
}

#[test]
fn narrow_phase_is_deterministic() {
    let a = sinking_x(unit(0), unit(16), unit(10), unit(16));
    let b = sinking_x(unit(0), unit(16), unit(10), unit(16));
    assert_eq!(a, b);
    assert_eq!(a, unit(12));
    let c = sinking_y(unit(0), unit(16), unit(0), unit(16));
    assert_eq!(c, unit(32));
}

#[test]
fn narrow_phase_separated_is_negative() {
    let s = sinking_x(unit(0), unit(16), unit(40), unit(16));
    assert!(s < 0);
}

#[test]
fn collide_registration_is_symmetric() {
    // register collide("A", "B"), then present the pair in B-A order: the
    // push-apart still happens, so the relation holds both ways
    let sys = CollisionSystem::new_default().collide("A", "B");
    let mut world = vec![boxed("B", 10, 0, 16, 16), boxed("A", 0, 0, 16, 16)];
    sys.run(&mut world);
    let rb = world[0].result.as_ref().unwrap();
    let ra = world[1].result.as_ref().unwrap();
    assert_eq!(ra.collision.x, -unit(6));
    assert_eq!(rb.collision.x, unit(6));
}

#[test]
fn trigger_registration_is_symmetric() {
    let sys = CollisionSystem::new_default().trigger("A", "B");
    let mut world = vec![boxed("B", 10, 0, 16, 16), boxed("A", 0, 0, 16, 16)];
    sys.run(&mut world);
    assert_eq!(world[0].result.as_ref().unwrap().collided.len(), 1);
    assert_eq!(world[1].result.as_ref().unwrap().collided.len(), 1);
}

#[test]
fn resolution_is_idempotent() {
    // after the push-apart, re-running the overlap test finds no overlap
    let sys = CollisionSystem::new_default().collide("Player", "Wall");
    let mut world = vec![boxed("Player", 0, 0, 16, 16), boxed("Wall", 10, 0, 16, 16)];
    world[0].body = Some(Rigidbody::default());
    world[1].body = Some(Rigidbody::default());
    sys.run(&mut world);
    let ax = world[0].pos.x;
    let bx = world[1].pos.x;
    let s = sinking_x(ax, unit(16), bx, unit(16));
    assert!(s <= 0);
}

#[test]
fn max_correction_wins_the_tie_break() {
    // depths 1, 3 and 2 units on the x axis: the recorded correction is the
    // deepest one, not a sum or average
    let sys = CollisionSystem::new_default().collide("A", "B");
    let mut world = vec![
        boxed("A", 0, 0, 16, 100),
        boxed("B", 15, 0, 16, 100),
        boxed("B", 13, 20, 16, 100),
        boxed("B", 14, -20, 16, 100),
    ];
    sys.run(&mut world);
    let ra = world[0].result.as_ref().unwrap();
    assert_eq!(ra.collision.x.abs(), unit(3));
}

#[test]
fn scenario_collide_records_corrections() {
    // Player 16x16 at (0,0), Wall 16x16 at (10,0): overlap with
    // sinking_x = 6 and sinking_y = 16, resolved on x
    let sys = CollisionSystem::new_default().collide("Player", "Wall");
    let mut world = vec![boxed("Player", 0, 0, 16, 16), boxed("Wall", 10, 0, 16, 16)];
    sys.run(&mut world);
    let ra = world[0].result.as_ref().unwrap();
    let rb = world[1].result.as_ref().unwrap();
    assert_eq!(ra.collision, Vec2::new(-unit(6), 0));
    assert_eq!(rb.collision, Vec2::new(unit(6), 0));
    assert_eq!(ra.collided.len(), 0);
    assert_eq!(world[0].pos, Vec2::new(0, 0));
    assert_eq!(world[1].pos, Vec2::new(unit(10), 0));
}

#[test]
fn scenario_trigger_records_contacts_only() {
    let sys = CollisionSystem::new_default().trigger("Player", "Wall");
    let mut world = vec![boxed("Player", 0, 0, 16, 16), boxed("Wall", 10, 0, 16, 16)];
    sys.run(&mut world);
    let ra = world[0].result.as_ref().unwrap();
    let rb = world[1].result.as_ref().unwrap();
    assert_eq!(ra.collided.len(), 1);
    assert_eq!(rb.collided.len(), 1);
    assert_eq!(ra.collided[0].entity, 1);
    assert_eq!(ra.collided[0].tag, "Wall".to_string());
    assert_eq!(rb.collided[0].entity, 0);
    assert_eq!(rb.collided[0].tag, "Player".to_string());
    assert_eq!(ra.collision, Vec2::new(0, 0));
    assert_eq!(world[0].pos, Vec2::new(0, 0));
    assert_eq!(world[1].pos, Vec2::new(unit(10), 0));
}

#[test]
fn full_bounce_reflects_the_velocity() {
    // velocity (2, 0), bounciness 1.0, normal (-1, 0): full elastic bounce
    let v = reflect(Vec2::new(unit(2), 0), Vec2::new(-FX_ONE, 0), FX_ONE, 0);
    assert_eq!(v, Vec2::new(-unit(2), 0));
}

#[test]
fn no_bounce_kills_the_normal_velocity() {
    // velocity (2, 0), bounciness 0.0, normal (-1, 0): fully inelastic
    let v = reflect(Vec2::new(unit(2), 0), Vec2::new(-FX_ONE, 0), 0, 0);
    assert_eq!(v, Vec2::new(0, 0));
}

#[test]
fn tangential_velocity_survives_the_bounce() {
    let v = reflect(Vec2::new(unit(2), unit(3)), Vec2::new(-FX_ONE, 0), FX_ONE, 0);
    assert_eq!(v, Vec2::new(-unit(2), unit(3)));
}

#[test]
fn friction_scales_the_velocity() {
    // friction 0.5 halves what is left after the bounce
    let v = reflect(Vec2::new(unit(2), unit(2)), Vec2::new(-FX_ONE, 0), 0, FX_ONE / 2);
    assert_eq!(v, Vec2::new(0, unit(1)));
}

#[test]
fn bounce_applies_end_to_end() {
    let sys = CollisionSystem::new_default().collide("Player", "Wall");
    let mut world = vec![boxed("Player", 0, 0, 16, 16), boxed("Wall", 10, 0, 16, 16)];
    let mut body = Rigidbody::default();
    body.velocity = Vec2::new(unit(2), 0);
    body.bounciness = FX_ONE;
    world[0].body = Some(body);
    sys.run(&mut world);
    let b = world[0].body.as_ref().unwrap();
    assert_eq!(b.velocity, Vec2::new(-unit(2), 0));
    // pushed out of penetration by the recorded correction
    assert_eq!(world[0].pos, Vec2::new(-unit(6), 0));
}

#[test]
fn integrator_applies_acceleration_and_moves() {
    let mut world = vec![Entity::new(Vec2::new(0, 0))];
    let mut body = Rigidbody::default();
    body.velocity = Vec2::new(unit(2), 0);
    body.acceleration = Vec2::new(unit(1), 0);
    world[0].body = Some(body);
    RigidbodySystem.run(&mut world);
    assert_eq!(world[0].pos, Vec2::new(unit(3), 0));
    assert_eq!(world[0].body.as_ref().unwrap().velocity, Vec2::new(unit(3), 0));
}

#[test]
fn integrator_caps_the_velocity() {
    let mut world = vec![Entity::new(Vec2::new(0, 0))];
    let mut body = Rigidbody::default();
    body.velocity = Vec2::new(unit(9), 0);
    world[0].body = Some(body);
    RigidbodySystem.run(&mut world);
    // both the move and the stored velocity are capped at five units/frame
    assert_eq!(world[0].pos, Vec2::new(unit(5), 0));
    assert_eq!(world[0].body.as_ref().unwrap().velocity, Vec2::new(unit(5), 0));
}

#[test]
fn integrator_applies_drag_after_the_move() {
    let mut world = vec![Entity::new(Vec2::new(0, 0))];
    let mut body = Rigidbody::default();
    body.velocity = Vec2::new(unit(2), 0);
    body.drag = FX_ONE / 2;
    world[0].body = Some(body);
    RigidbodySystem.run(&mut world);
    assert_eq!(world[0].pos, Vec2::new(unit(2), 0));
    assert_eq!(world[0].body.as_ref().unwrap().velocity, Vec2::new(unit(1), 0));
}

#[test]
fn auto_rotate_records_the_facing() {
    let mut world = vec![Entity::new(Vec2::new(0, 0))];
    let mut body = Rigidbody::default();
    body.velocity = Vec2::new(unit(1), unit(2));
    body.auto_rotate = true;
    world[0].body = Some(body);
    RigidbodySystem.run(&mut world);
    assert_eq!(world[0].facing, Vec2::new(unit(1), unit(2)));
}

#[test]
fn entities_without_components_are_left_alone() {
    let sys = CollisionSystem::new_default().collide("Player", "Wall");
    let mut world = vec![
        Entity::new(Vec2::new(unit(5), unit(5))),
        boxed("Player", 0, 0, 16, 16),
        boxed("Wall", 10, 0, 16, 16),
    ];
    sys.run(&mut world);
    assert_eq!(world[0].pos, Vec2::new(unit(5), unit(5)));
    assert!(world[0].result.is_none());
}

#[test]
fn a_tag_with_no_members_is_a_no_op() {
    let sys = CollisionSystem::new_default().collide("Ghost", "Wall");
    let mut world = vec![boxed("Player", 0, 0, 16, 16)];
    sys.run(&mut world);
    assert_eq!(world[0].result.as_ref().unwrap().collision, Vec2::new(0, 0));
    assert_eq!(world[0].result.as_ref().unwrap().collided.len(), 0);
}

#[test]
fn ties_resolve_on_the_y_axis() {
    // equal penetrations on both axes: the source favors y
    let sys = CollisionSystem::new_default().collide("A", "B");
    let mut world = vec![boxed("A", 0, 0, 16, 16), boxed("B", 10, 10, 16, 16)];
    sys.run(&mut world);
    let ra = world[0].result.as_ref().unwrap();
    assert_eq!(ra.collision.x, 0);
    assert_eq!(ra.collision.y, -unit(6));
}

#[test]
fn both_relations_can_hold_at_once() {
    let sys = CollisionSystem::new_default().collide("A", "B").trigger("A", "B");
    let mut world = vec![boxed("A", 0, 0, 16, 16), boxed("B", 10, 0, 16, 16)];
    sys.run(&mut world);
    let ra = world[0].result.as_ref().unwrap();
    assert_eq!(ra.collision.x, -unit(6));
    assert_eq!(ra.collided.len(), 1);
}

#[test]
fn results_are_cleared_every_pass() {
    let sys = CollisionSystem::new_default().trigger("A", "B");
    let mut world = vec![boxed("A", 0, 0, 16, 16), boxed("B", 10, 0, 16, 16)];
    sys.run(&mut world);
    // separate them and run again: the old contact does not linger
    world[1].pos = Vec2::new(unit(100), 0);
    sys.run(&mut world);
    assert_eq!(world[0].result.as_ref().unwrap().collided.len(), 0);
}

#[test]
fn an_empty_world_is_fine() {
    let sys = CollisionSystem::new_default().collide("A", "B");
    let mut world: Vec<Entity> = Vec::new();
    sys.run(&mut world);
    assert_eq!(world.len(), 0);
}

#[test]
fn a_tag_can_collide_with_itself() {
    let sys = CollisionSystem::new_default().collide("Ball", "Ball");
    let mut world = vec![boxed("Ball", 0, 0, 16, 16), boxed("Ball", 10, 0, 16, 16)];
    sys.run(&mut world);
    let ra = world[0].result.as_ref().unwrap();
    let rb = world[1].result.as_ref().unwrap();
    assert_eq!(ra.collision.x, -unit(6));
    assert_eq!(rb.collision.x, unit(6));
}

#[test]
fn diagonal_corrections_reflect_both_axes() {
    let v = reflect(Vec2::new(unit(2), 0), Vec2::new(-FX_ONE, -FX_ONE), 0, 0);
    assert_eq!(v, Vec2::new(unit(1), -unit(1)));
}

#[test]
fn separated_boxes_produce_nothing() {
    let sys = CollisionSystem::new_default().collide("A", "B").trigger("A", "B");
    let mut world = vec![boxed("A", 0, 0, 16, 16), boxed("B", 100, 0, 16, 16)];
    sys.run(&mut world);
    let ra = world[0].result.as_ref().unwrap();
    assert_eq!(ra.collision, Vec2::new(0, 0));
    assert_eq!(ra.collided.len(), 0);
}
