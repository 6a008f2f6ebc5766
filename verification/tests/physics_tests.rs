use iron_oxide::collider::{Collider, Shape, LAYERS};
use iron_oxide::geometry::{Aabb, Vec2};
use iron_oxide::physics::{Physics, PhysicsConfig};

fn cfg_elastic() -> PhysicsConfig {
    PhysicsConfig {
        gravity: 0,
        friction_num: 1,
        friction_den: 1,
        collision_friction_num: 1,
        collision_friction_den: 1,
    }
}

fn circle(radius: i64) -> Collider {
    Collider {
        shape: Shape::CircleCollider { radius },
        physics_collider: true,
        collision_layers: [true; LAYERS],
        collision_mask: [true; LAYERS],
    }
}

#[test]
fn integrate_applies_gravity_friction_and_advance() {
    let cfg = PhysicsConfig {
        gravity: 10,
        friction_num: 998,
        friction_den: 1000,
        collision_friction_num: 1,
        collision_friction_den: 1,
    };
    let mut ph = Physics::new(100);
    ph.velocity = Vec2 { x: 100, y: 200 };
    let mut pos = Vec2 { x: 0, y: 0 };
    ph.update(&mut pos, 500, &cfg);
    // vx = 100*998/1000 = 99; vy = (200+10)*998/1000 = 209
    assert_eq!(ph.velocity, Vec2 { x: 99, y: 209 });
    // position advances by v * 500 / 1000
    assert_eq!(pos, Vec2 { x: 49, y: 104 });
}

#[test]
fn integrate_full_tick_moves_by_velocity() {
    let cfg = cfg_elastic();
    let mut ph = Physics::new(1);
    ph.velocity = Vec2 { x: -7, y: 3 };
    let mut pos = Vec2 { x: 10, y: 10 };
    ph.update(&mut pos, 1000, &cfg);
    assert_eq!(ph.velocity, Vec2 { x: -7, y: 3 });
    assert_eq!(pos, Vec2 { x: 3, y: 13 });
}

#[test]
fn wall_resolution_restores_position_and_inverts_velocity() {
    // a circle of radius r at (x, -5) with the arena top at y = 0 must end
    // with position.y >= r and a non-negative y velocity
    let r = 100;
    let arena = Aabb { lx: 0, ly: 0, rx: 1400, ry: 1000 };
    let c = circle(r);
    let cfg = cfg_elastic();
    let mut pos = Vec2 { x: 500, y: -5 };
    let mut ph = Physics::new(100);
    ph.velocity = Vec2 { x: 20, y: -50 };
    let o = c.get_collision_bounds(&pos, &arena).unwrap();
    assert_eq!(o, Vec2 { x: 0, y: 105 });
    ph.collide_bound(&mut pos, o, &cfg);
    assert!(pos.y >= r);
    assert_eq!(pos, Vec2 { x: 500, y: 100 });
    assert!(ph.velocity.y >= 0);
    assert_eq!(ph.velocity, Vec2 { x: 20, y: 50 });
}

#[test]
fn wall_resolution_keeps_inward_velocity() {
    let cfg = cfg_elastic();
    let mut pos = Vec2 { x: 500, y: -5 };
    let mut ph = Physics::new(100);
    ph.velocity = Vec2 { x: 0, y: 30 }; // already moving back inside
    ph.collide_bound(&mut pos, Vec2 { x: 0, y: 105 }, &cfg);
    assert_eq!(ph.velocity, Vec2 { x: 0, y: 30 });
}

#[test]
fn wall_resolution_dampens_by_friction() {
    let cfg = PhysicsConfig {
        gravity: 0,
        friction_num: 1,
        friction_den: 1,
        collision_friction_num: 900,
        collision_friction_den: 1000,
    };
    let mut pos = Vec2 { x: -5, y: 500 };
    let mut ph = Physics::new(100);
    ph.velocity = Vec2 { x: -40, y: 0 };
    ph.collide_bound(&mut pos, Vec2 { x: 15, y: 0 }, &cfg);
    // -(-40 * 900 / 1000) = 36
    assert_eq!(ph.velocity, Vec2 { x: 36, y: 0 });
}

#[test]
fn pairwise_separation_fully_separates() {
    // two circles of radius 10 at distance 15 (overlap 5) must end at
    // distance >= 20 after both sides resolve, with momentum conserved
    let ca = circle(10);
    let cb = circle(10);
    let cfg = cfg_elastic();
    let pa0 = Vec2 { x: 0, y: 0 };
    let pb0 = Vec2 { x: 15, y: 0 };
    let mut pha = Physics::new(100);
    pha.velocity = Vec2 { x: 10, y: 0 };
    let mut phb = Physics::new(100);
    phb.velocity = Vec2 { x: -10, y: 0 };
    let snap_a = pha;
    let snap_b = phb;

    // a's own perspective
    let oa = ca.get_collision(&pa0, &pb0, &cb).unwrap();
    assert_eq!(oa, Vec2 { x: -5, y: 0 });
    let mut pa = pa0;
    pha.resolve_collision_single(&mut pa, &pb0, &snap_b, oa, &cfg);

    // b's own perspective, against a's snapshot
    let ob = cb.get_collision(&pb0, &pa0, &ca).unwrap();
    assert_eq!(ob, Vec2 { x: 5, y: 0 });
    let mut pb = pb0;
    phb.resolve_collision_single(&mut pb, &pa0, &snap_a, ob, &cfg);

    // each side moves by ceil(5 * 100 / 200) = 3
    assert_eq!(pa, Vec2 { x: -3, y: 0 });
    assert_eq!(pb, Vec2 { x: 18, y: 0 });
    assert!(pb.x - pa.x >= 20);

    // equal masses swap velocities elastically; total momentum unchanged
    assert_eq!(pha.velocity, Vec2 { x: -10, y: 0 });
    assert_eq!(phb.velocity, Vec2 { x: 10, y: 0 });
    let p_before = 100 * snap_a.velocity.x + 100 * snap_b.velocity.x;
    let p_after = 100 * pha.velocity.x + 100 * phb.velocity.x;
    assert_eq!(p_before, p_after);
}

#[test]
fn unequal_masses_exchange_proportionally() {
    let cfg = cfg_elastic();
    let mut ph = Physics::new(300);
    ph.velocity = Vec2 { x: 12, y: 5 };
    let mut other = Physics::new(100);
    other.velocity = Vec2 { x: -4, y: 0 };
    let mut pos = Vec2 { x: 0, y: 0 };
    ph.resolve_collision_single(&mut pos, &Vec2 { x: 9, y: 0 }, &other, Vec2 { x: -6, y: 0 }, &cfg);
    // position share: ceil(6 * 100 / 400) = 2, toward -x
    assert_eq!(pos, Vec2 { x: -2, y: 0 });
    // vx' = ((300-100)*12 + 2*100*(-4)) / 400 = (2400 - 800) / 400 = 4
    assert_eq!(ph.velocity, Vec2 { x: 4, y: 5 });
    // the counterpart's state is read only, never written
    assert_eq!(other.velocity, Vec2 { x: -4, y: 0 });
}

#[test]
fn trigger_only_pair_detected_but_not_resolved() {
    // detection happens via the collider overlap; response is gated on
    // physics_collider, which the orchestrator checks on both sides
    let mut trigger = circle(10);
    trigger.physics_collider = false;
    let solid = circle(10);
    let v = trigger
        .get_collision(&Vec2 { x: 0, y: 0 }, &Vec2 { x: 15, y: 0 }, &solid)
        .unwrap();
    assert_eq!(v, Vec2 { x: -5, y: 0 });
    assert!(!trigger.physics_collider && solid.physics_collider);
}
