use iron_oxide::collider::{Collider, Shape, LAYERS};
use iron_oxide::geometry::{Aabb, Vec2};

fn circle(radius: i64) -> Collider {
    Collider {
        shape: Shape::CircleCollider { radius },
        physics_collider: true,
        collision_layers: [true; LAYERS],
        collision_mask: [true; LAYERS],
    }
}

#[test]
fn union_is_smallest_containing_box() {
    let a = Aabb { lx: 0, ly: 0, rx: 10, ry: 10 };
    let b = Aabb { lx: -5, ly: 3, rx: 7, ry: 20 };
    let u = a.get_union(&b);
    assert_eq!(u, Aabb { lx: -5, ly: 0, rx: 10, ry: 20 });
    assert!(u.contains(&a));
    assert!(u.contains(&b));
}

#[test]
fn contains_and_overlap() {
    let a = Aabb { lx: 0, ly: 0, rx: 10, ry: 10 };
    let inner = Aabb { lx: 2, ly: 2, rx: 8, ry: 8 };
    let outside = Aabb { lx: 11, ly: 0, rx: 20, ry: 10 };
    let touching = Aabb { lx: 10, ly: 0, rx: 20, ry: 10 };
    assert!(a.contains(&inner));
    assert!(!inner.contains(&a));
    assert!(a.is_colliding(&inner));
    assert!(!a.is_colliding(&outside));
    // touching edges have zero overlap area and do not collide
    assert!(!a.is_colliding(&touching));
}

#[test]
fn point_containment_is_strict() {
    let a = Aabb { lx: 0, ly: 0, rx: 10, ry: 10 };
    assert!(a.contains_point(&Vec2 { x: 5, y: 5 }));
    assert!(!a.contains_point(&Vec2 { x: 0, y: 5 }));
    assert!(!a.contains_point(&Vec2 { x: 5, y: 10 }));
}

#[test]
fn with_point_grows_to_cover() {
    let a = Aabb { lx: 0, ly: 0, rx: 4, ry: 4 };
    let g = a.with_point(&Vec2 { x: -3, y: 9 });
    assert_eq!(g, Aabb { lx: -3, ly: 0, rx: 4, ry: 9 });
}

#[test]
fn dist_is_squared_center_distance() {
    let a = Aabb { lx: 0, ly: 0, rx: 2, ry: 2 };
    let b = Aabb { lx: 10, ly: 0, rx: 12, ry: 2 };
    // doubled centers are (2, 2) and (22, 2): dx = 20, dy = 0
    assert_eq!(a.get_dist(&b), 400);
    assert_eq!(b.get_dist(&a), 400);
}

#[test]
fn circle_bounding_box_is_centered() {
    let c = circle(10);
    let bb = c.get_bounding_box(&Vec2 { x: 100, y: 50 });
    assert_eq!(bb, Aabb { lx: 90, ly: 40, rx: 110, ry: 60 });
}

#[test]
fn rectangle_bounding_box_is_anchored() {
    let c = Collider {
        shape: Shape::RectangeCollider { size: Vec2 { x: 30, y: 40 } },
        physics_collider: true,
        collision_layers: [true; LAYERS],
        collision_mask: [true; LAYERS],
    };
    let bb = c.get_bounding_box(&Vec2 { x: 5, y: 6 });
    assert_eq!(bb, Aabb { lx: 5, ly: 6, rx: 35, ry: 46 });
}

#[test]
fn overlap_vector_uses_minimal_axis() {
    let a = circle(5); // box 10x10
    let b = circle(7); // box 14x14
    // a at (0, 0): box [-5,5]; b at (8, 1): box [1, 15] x [-6, 8]
    // x overlap = 5 - 1 = 4, y overlap = 5 - (-6) = 11 -> x axis, a is left
    let v = a
        .get_collision(&Vec2 { x: 0, y: 0 }, &Vec2 { x: 8, y: 1 }, &b)
        .unwrap();
    assert_eq!(v, Vec2 { x: -4, y: 0 });
}

#[test]
fn overlap_is_symmetric_up_to_sign() {
    let a = circle(5);
    let b = circle(7);
    let pa = Vec2 { x: 0, y: 0 };
    let pb = Vec2 { x: 8, y: 1 };
    let v = a.get_collision(&pa, &pb, &b).unwrap();
    let w = b.get_collision(&pb, &pa, &a).unwrap();
    assert_eq!(v.x, -w.x);
    assert_eq!(v.y, -w.y);
}

#[test]
fn no_overlap_gives_none() {
    let a = circle(5);
    let b = circle(5);
    assert!(a
        .get_collision(&Vec2 { x: 0, y: 0 }, &Vec2 { x: 100, y: 0 }, &b)
        .is_none());
}

#[test]
fn bound_overlap_reports_exit_vector() {
    let arena = Aabb { lx: 0, ly: 0, rx: 1400, ry: 1000 };
    let c = circle(10);
    // fully inside: no exit
    assert!(c
        .get_collision_bounds(&Vec2 { x: 700, y: 500 }, &arena)
        .is_none());
    // out past the left wall by 15 (box lx = -15)
    let v = c
        .get_collision_bounds(&Vec2 { x: -5, y: 500 }, &arena)
        .unwrap();
    assert_eq!(v, Vec2 { x: 15, y: 0 });
    // out past the bottom by 30 (box ry = 1030)
    let v = c
        .get_collision_bounds(&Vec2 { x: 700, y: 1020 }, &arena)
        .unwrap();
    assert_eq!(v, Vec2 { x: 0, y: -30 });
}
