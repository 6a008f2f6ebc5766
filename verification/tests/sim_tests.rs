use iron_oxide::collider::{Collider, Shape, LAYERS};
use iron_oxide::geometry::{Aabb, Vec2};
use iron_oxide::physics::{Physics, PhysicsConfig};
use iron_oxide::sim::{create_bvh, SimConfig, SimEntity, Simulation};
use iron_oxide::utils::Collisions;

fn cfg() -> SimConfig {
    SimConfig {
        physics: PhysicsConfig {
            gravity: 0,
            friction_num: 1,
            friction_den: 1,
            collision_friction_num: 1,
            collision_friction_den: 1,
        },
        min_bvh_update_time: 250,
    }
}

fn circle_ent(id: u32, x: i64, y: i64, radius: i64, mass: i64) -> SimEntity {
    SimEntity {
        id,
        position: Vec2 { x, y },
        collider: Some(Collider {
            shape: Shape::CircleCollider { radius },
            physics_collider: true,
            collision_layers: [true; LAYERS],
            collision_mask: [true; LAYERS],
        }),
        physics: Some(Physics::new(mass)),
        frozen: false,
        collisions: Collisions(Vec::new()),
    }
}

fn arena() -> Aabb {
    Aabb { lx: 0, ly: 0, rx: 1400, ry: 1000 }
}

#[test]
fn create_bvh_of_no_entities_is_none() {
    let ents: Vec<SimEntity> = Vec::new();
    assert!(create_bvh(&ents).is_none());
}

#[test]
fn create_bvh_skips_colliderless_entities() {
    let mut plain = circle_ent(5, 100, 100, 10, 100);
    plain.collider = None;
    let ents = vec![plain, circle_ent(7, 200, 200, 10, 100)];
    let tree = create_bvh(&ents).unwrap();
    assert_eq!(tree.get_children_id(), vec![7]);
}

#[test]
fn frame_separates_overlapping_pair() {
    // two circles of radius 10 at distance 15: after one frame each has
    // moved its own share and they are fully separated
    let mut sim = Simulation::new();
    sim.entities.push(circle_ent(0, 200, 500, 10, 100));
    sim.entities.push(circle_ent(1, 215, 500, 10, 100));
    sim.frame(0, &arena(), &cfg());
    assert_eq!(sim.entities[0].position, Vec2 { x: 197, y: 500 });
    assert_eq!(sim.entities[1].position, Vec2 { x: 218, y: 500 });
    assert!(sim.entities[1].position.x - sim.entities[0].position.x >= 20);
    // each recorded the other as a collision candidate
    assert_eq!(sim.entities[0].collisions.0, vec![1]);
    assert_eq!(sim.entities[1].collisions.0, vec![0]);
}

#[test]
fn frame_resolves_wall_exit() {
    let mut sim = Simulation::new();
    let mut e = circle_ent(0, 700, -5, 100, 100);
    if let Some(ph) = &mut e.physics {
        ph.velocity = Vec2 { x: 0, y: -50 };
    }
    sim.entities.push(e);
    sim.frame(0, &arena(), &cfg());
    // pushed back to y = r and the outward velocity inverted
    assert_eq!(sim.entities[0].position, Vec2 { x: 700, y: 100 });
    assert_eq!(sim.entities[0].physics.unwrap().velocity, Vec2 { x: 0, y: 50 });
}

#[test]
fn frame_moves_by_velocity() {
    let mut sim = Simulation::new();
    let mut e = circle_ent(0, 100, 100, 10, 100);
    if let Some(ph) = &mut e.physics {
        ph.velocity = Vec2 { x: 40, y: -20 };
    }
    sim.entities.push(e);
    sim.frame(500, &arena(), &cfg());
    assert_eq!(sim.entities[0].position, Vec2 { x: 120, y: 90 });
}

#[test]
fn frozen_entities_do_not_move() {
    let mut sim = Simulation::new();
    let mut e = circle_ent(0, 100, 100, 10, 100);
    if let Some(ph) = &mut e.physics {
        ph.velocity = Vec2 { x: 40, y: 40 };
    }
    e.frozen = true;
    sim.entities.push(e);
    let gravity_cfg = SimConfig {
        physics: PhysicsConfig { gravity: 5, ..cfg().physics },
        ..cfg()
    };
    sim.frame(1000, &arena(), &gravity_cfg);
    assert_eq!(sim.entities[0].position, Vec2 { x: 100, y: 100 });
    assert_eq!(sim.entities[0].physics.unwrap().velocity, Vec2 { x: 40, y: 40 });
}

#[test]
fn rebuild_timer_resets_and_accumulates() {
    let mut sim = Simulation::new();
    sim.entities.push(circle_ent(0, 100, 100, 10, 100));
    // no tree yet: the first frame rebuilds and resets the timer
    sim.frame(100, &arena(), &cfg());
    assert!(sim.tree.is_some());
    assert_eq!(sim.time_since_bvh_update, 100);
    // under the threshold: no rebuild, the timer accumulates
    sim.frame(100, &arena(), &cfg());
    assert_eq!(sim.time_since_bvh_update, 200);
    // 300 > 250: the next frame rebuilds again
    sim.frame(100, &arena(), &cfg());
    assert_eq!(sim.time_since_bvh_update, 300);
    sim.frame(100, &arena(), &cfg());
    assert_eq!(sim.time_since_bvh_update, 100);
}

#[test]
fn masked_entities_do_not_collide() {
    let mut sim = Simulation::new();
    let mut a = circle_ent(0, 200, 500, 10, 100);
    let mut b = circle_ent(1, 215, 500, 10, 100);
    // disjoint layers and masks: they cannot see each other
    if let Some(c) = &mut a.collider {
        c.collision_layers = [false; LAYERS];
        c.collision_layers[0] = true;
        c.collision_mask = [false; LAYERS];
        c.collision_mask[1] = true;
    }
    if let Some(c) = &mut b.collider {
        c.collision_layers = [false; LAYERS];
        c.collision_layers[0] = true;
        c.collision_mask = [false; LAYERS];
        c.collision_mask[1] = true;
    }
    sim.entities.push(a);
    sim.entities.push(b);
    sim.frame(0, &arena(), &cfg());
    assert_eq!(sim.entities[0].position, Vec2 { x: 200, y: 500 });
    assert_eq!(sim.entities[1].position, Vec2 { x: 215, y: 500 });
    assert!(sim.entities[0].collisions.0.is_empty());
    assert!(sim.entities[1].collisions.0.is_empty());
}

#[test]
fn trigger_pair_records_but_does_not_separate() {
    let mut sim = Simulation::new();
    let mut a = circle_ent(0, 200, 500, 10, 100);
    if let Some(c) = &mut a.collider {
        c.physics_collider = false;
    }
    let b = circle_ent(1, 215, 500, 10, 100);
    sim.entities.push(a);
    sim.entities.push(b);
    sim.frame(0, &arena(), &cfg());
    // detection still happens on both sides
    assert_eq!(sim.entities[0].collisions.0, vec![1]);
    assert_eq!(sim.entities[1].collisions.0, vec![0]);
    // but no positional correction is applied to either
    assert_eq!(sim.entities[0].position, Vec2 { x: 200, y: 500 });
    assert_eq!(sim.entities[1].position, Vec2 { x: 215, y: 500 });
}

#[test]
fn many_frames_stay_consistent() {
    let mut sim = Simulation::new();
    for i in 0..50 {
        let mut e = circle_ent(
            i,
            (i as i64 * 97) % 1300 + 30,
            (i as i64 * 71) % 900 + 30,
            12,
            144,
        );
        if let Some(ph) = &mut e.physics {
            ph.velocity = Vec2 {
                x: (i as i64 * 13) % 400 - 200,
                y: (i as i64 * 29) % 400 - 200,
            };
        }
        sim.entities.push(e);
    }
    for _ in 0..60 {
        sim.frame(16, &arena(), &cfg());
    }
    assert_eq!(sim.entities.len(), 50);
    // the index always mirrors the live entities after the rebuild cadence
    let mut ids = sim.tree.as_ref().unwrap().get_children_id();
    ids.sort_unstable();
    assert_eq!(ids, (0..50).collect::<Vec<u32>>());
    // bodies stay in the neighborhood of the arena: walls keep pulling
    // them back and pairwise pushes are bounded by the overlap
    for e in &sim.entities {
        assert!(e.position.x > -200 && e.position.x < 1600);
        assert!(e.position.y > -200 && e.position.y < 1200);
    }
}

#[test]
fn entity_ids_survive_a_frame() {
    let mut sim = Simulation::new();
    for i in 0..20 {
        sim.entities.push(circle_ent(i, (i as i64 * 61) % 1300 + 20, (i as i64 * 37) % 900 + 20, 10, 100));
    }
    sim.frame(16, &arena(), &cfg());
    let tree = sim.tree.as_ref().unwrap();
    let mut ids = tree.get_children_id();
    ids.sort_unstable();
    assert_eq!(ids, (0..20).collect::<Vec<u32>>());
    for (i, e) in sim.entities.iter().enumerate() {
        assert_eq!(e.id, i as u32);
    }
}
