use iron_oxide::bvh::{BVHTree, EntityData, Node};
use iron_oxide::collider::{Collider, Shape, LAYERS};
use iron_oxide::geometry::{Aabb, Vec2};

fn circle(radius: i64) -> Collider {
    Collider {
        shape: Shape::CircleCollider { radius },
        physics_collider: true,
        collision_layers: [true; LAYERS],
        collision_mask: [true; LAYERS],
    }
}

fn ent(id: u32, x: i64, y: i64, radius: i64) -> EntityData {
    let c = circle(radius);
    let position = Vec2 { x, y };
    let aabb = c.get_bounding_box(&position);
    EntityData { collider: c, position, aabb, id }
}

fn node_bb(n: &Node) -> Aabb {
    match n {
        Node::Branch(bb, _, _) => *bb,
        Node::Fruit(bb, _, _) => *bb,
    }
}

fn subtree_has_id(n: &Node, id: u32) -> bool {
    match n {
        Node::Branch(_, c0, c1) => subtree_has_id(c0, id) || subtree_has_id(c1, id),
        Node::Fruit(_, fid, _) => *fid == id,
    }
}

/// Every Branch box must contain both children's boxes (the conservative
/// invariant); when `exact`, it must equal their union (tightness).
fn check_boxes(n: &Node, exact: bool) {
    if let Node::Branch(bb, c0, c1) = n {
        let b0 = node_bb(c0);
        let b1 = node_bb(c1);
        let u = b0.get_union(&b1);
        assert!(bb.contains(&b0) && bb.contains(&b1));
        if exact {
            assert_eq!(*bb, u);
        }
        check_boxes(c0, exact);
        check_boxes(c1, exact);
    }
}

fn sorted(mut v: Vec<u32>) -> Vec<u32> {
    v.sort_unstable();
    v
}

#[test]
fn build_preserves_all_ids_exactly_once() {
    let data: Vec<EntityData> = (0..57).map(|i| ent(i, (i as i64 * 37) % 500, (i as i64 * 91) % 400, 10)).collect();
    let tree = BVHTree::new(data);
    let ids = sorted(tree.get_children_id());
    let expect: Vec<u32> = (0..57).collect();
    assert_eq!(ids, expect);
}

#[test]
fn build_produces_tight_boxes() {
    let data: Vec<EntityData> = (0..33).map(|i| ent(i, (i as i64 * 53) % 300, (i as i64 * 17) % 200, 8)).collect();
    let tree = BVHTree::new(data);
    for n in tree.get_children() {
        check_boxes(n, true);
    }
}

#[test]
fn query_rect_finds_overlapping_entities() {
    let data = vec![ent(0, 0, 0, 10), ent(1, 100, 0, 10), ent(2, 50, 50, 10)];
    let tree = BVHTree::new(data);
    let hits = sorted(tree.query_rect(&Aabb { lx: -20, ly: -20, rx: 60, ry: 60 }, &[true; LAYERS]));
    assert_eq!(hits, vec![0, 2]);
    let none = tree.query_rect(&Aabb { lx: 200, ly: 200, rx: 300, ry: 300 }, &[true; LAYERS]);
    assert!(none.is_empty());
}

#[test]
fn query_point_is_strict() {
    let data = vec![ent(0, 0, 0, 10), ent(1, 100, 0, 10)];
    let tree = BVHTree::new(data);
    assert_eq!(tree.query_point(&Vec2 { x: 5, y: 5 }, &[true; LAYERS]), vec![0]);
    // on the box edge: not inside
    assert!(tree.query_point(&Vec2 { x: 10, y: 0 }, &[true; LAYERS]).is_empty());
}

#[test]
fn layer_filter_applies_at_leaves() {
    let mut a = ent(0, 0, 0, 10);
    a.collider.collision_layers = [false; LAYERS];
    a.collider.collision_layers[0] = true;
    let mut b = ent(1, 5, 0, 10);
    b.collider.collision_layers = [false; LAYERS];
    b.collider.collision_layers[1] = true;
    let tree = BVHTree::new(vec![a, b]);
    let region = Aabb { lx: -20, ly: -20, rx: 30, ry: 20 };
    let mut mask0 = [false; LAYERS];
    mask0[0] = true;
    assert_eq!(tree.query_rect(&region, &mask0), vec![0]);
    let mut mask1 = [false; LAYERS];
    mask1[1] = true;
    assert_eq!(tree.query_rect(&region, &mask1), vec![1]);
    assert!(tree.query_rect(&region, &[false; LAYERS]).is_empty());
}

#[test]
fn insert_then_delete_restores_ids() {
    let data: Vec<EntityData> = (0..9).map(|i| ent(i, i as i64 * 40, 0, 10)).collect();
    let mut tree = BVHTree::new(data);
    let before = sorted(tree.get_children_id());
    tree.insert(&ent(100, 123, 45, 10));
    let mut with_new = before.clone();
    with_new.push(100);
    assert_eq!(sorted(tree.get_children_id()), sorted(with_new));
    tree.delete(100);
    assert_eq!(sorted(tree.get_children_id()), before);
}

#[test]
fn delete_absent_id_is_a_no_op() {
    let data = vec![ent(0, 0, 0, 10), ent(1, 100, 0, 10)];
    let mut tree = BVHTree::new(data);
    let before = tree.get_children_id();
    tree.delete(42);
    assert_eq!(tree.get_children_id(), before);
}

#[test]
fn delete_on_single_fruit_tree_is_a_no_op() {
    let mut tree = BVHTree::new(vec![ent(7, 0, 0, 10)]);
    tree.delete(7);
    assert_eq!(tree.get_children_id(), vec![7]);
}

#[test]
fn update_moves_leaf_and_grows_ancestors() {
    let data: Vec<EntityData> = (0..8).map(|i| ent(i, i as i64 * 30, 0, 10)).collect();
    let mut tree = BVHTree::new(data);
    let c = circle(10);
    let old_bb = c.get_bounding_box(&Vec2 { x: 90, y: 0 }); // entity 3
    let new_bb = c.get_bounding_box(&Vec2 { x: 95, y: 70 });
    tree.update((&old_bb, 3), (&new_bb, 3));
    // every node on the path to the updated leaf contains the new box
    for n in tree.get_children() {
        if subtree_has_id(n, 3) {
            assert!(node_bb(n).contains(&new_bb));
        }
    }
    // boxes are still conservative (possibly loose) before a shrink
    for n in tree.get_children() {
        check_boxes(n, false);
    }
}

#[test]
fn update_absent_id_leaves_ids_unchanged() {
    let data = vec![ent(0, 0, 0, 10), ent(1, 100, 0, 10)];
    let mut tree = BVHTree::new(data);
    let c = circle(10);
    let old_bb = c.get_bounding_box(&Vec2 { x: 500, y: 500 });
    let new_bb = c.get_bounding_box(&Vec2 { x: 600, y: 600 });
    tree.update((&old_bb, 9), (&new_bb, 9));
    assert_eq!(sorted(tree.get_children_id()), vec![0, 1]);
}

#[test]
fn shrink_restores_tightness_and_is_idempotent() {
    let build = || {
        let data: Vec<EntityData> = (0..12).map(|i| ent(i, i as i64 * 25, (i as i64 * 13) % 70, 10)).collect();
        let mut t = BVHTree::new(data);
        let c = circle(10);
        // loosen the boxes with a few updates
        for (id, x) in [(2u32, 50i64), (5, 125), (9, 225)] {
            let old_bb = c.get_bounding_box(&Vec2 { x, y: (id as i64 * 13) % 70 });
            let new_bb = c.get_bounding_box(&Vec2 { x: x + 40, y: 200 });
            t.update((&old_bb, id), (&new_bb, id));
        }
        t
    };
    let mut once = build();
    once.shrink();
    for n in once.get_children() {
        check_boxes(n, true);
    }
    let mut twice = build();
    twice.shrink();
    twice.shrink();
    let a = once.get_children();
    let b = twice.get_children();
    assert_eq!(a.len(), b.len());
    for (x, y) in a.iter().zip(b.iter()) {
        assert_eq!(x, y);
    }
}

#[test]
fn debug_query_reports_visited_nodes_with_depths() {
    let data: Vec<EntityData> = (0..16).map(|i| ent(i, (i as i64 % 4) * 100, (i as i64 / 4) * 100, 10)).collect();
    let tree = BVHTree::new(data);
    let whole = Aabb { lx: -50, ly: -50, rx: 500, ry: 500 };
    let (ids, visited) = tree.debug_query_rect(&whole, &[true; LAYERS]);
    assert_eq!(sorted(ids.unwrap()), (0..16).collect::<Vec<u32>>());
    // 16 leaves in a full binary tree: 31 nodes, root at depth 0
    assert_eq!(visited.len(), 31);
    assert_eq!(visited[0].1, 0);
    let max_depth = visited.iter().map(|(_, d)| *d).max().unwrap();
    assert_eq!(max_depth, 4);
    let (empty, seen) = tree.debug_query_rect(&Aabb { lx: 900, ly: 900, rx: 950, ry: 950 }, &[true; LAYERS]);
    assert!(empty.is_none());
    assert!(seen.is_empty());
}

#[test]
fn debug_query_point_matches_query_point() {
    let data: Vec<EntityData> = (0..10).map(|i| ent(i, i as i64 * 15, 0, 10)).collect();
    let tree = BVHTree::new(data);
    let p = Vec2 { x: 31, y: 3 };
    let direct = tree.query_point(&p, &[true; LAYERS]);
    let (via_debug, _) = tree.debug_query_point(&p, &[true; LAYERS]);
    assert_eq!(via_debug.unwrap_or_default(), direct);
}

struct Lcg(u64);

impl Lcg {
    fn next(&mut self) -> u64 {
        self.0 = self.0.wrapping_mul(6364136223846793005).wrapping_add(1442695040888963407);
        self.0 >> 33
    }
}

#[test]
fn thousand_circles_scenario() {
    // 1000 circles of radius 15 uniformly placed in a 1400 x 1000 arena
    let mut rng = Lcg(42);
    let data: Vec<EntityData> = (0..1000)
        .map(|i| {
            let x = (rng.next() % 1400) as i64;
            let y = (rng.next() % 1000) as i64;
            ent(i, x, y, 15)
        })
        .collect();
    let reference = data.clone();
    let tree = BVHTree::new(data);

    // the tree is balanced: depth <= ceil(log2(1000)) + 1 = 11
    let whole = Aabb { lx: -100, ly: -100, rx: 1500, ry: 1100 };
    let (_, visited) = tree.debug_query_rect(&whole, &[true; LAYERS]);
    let max_depth = visited.iter().map(|(_, d)| *d).max().unwrap();
    assert!(max_depth <= 11, "depth {} too large", max_depth);

    // random point queries agree with a brute-force scan and stay small
    for _ in 0..200 {
        let p = Vec2 {
            x: (rng.next() % 1400) as i64,
            y: (rng.next() % 1000) as i64,
        };
        let got = sorted(tree.query_point(&p, &[true; LAYERS]));
        let brute: Vec<u32> = reference
            .iter()
            .filter(|e| {
                e.aabb.lx < p.x && e.aabb.rx > p.x && e.aabb.ly < p.y && e.aabb.ry > p.y
            })
            .map(|e| e.id)
            .collect();
        assert_eq!(got, sorted(brute));
        assert!(got.len() <= 30, "point query returned {} candidates", got.len());
    }

    // rect queries cross-validated too
    for _ in 0..50 {
        let x = (rng.next() % 1400) as i64;
        let y = (rng.next() % 1000) as i64;
        let r = Aabb { lx: x, ly: y, rx: x + 80, ry: y + 80 };
        let got = sorted(tree.query_rect(&r, &[true; LAYERS]));
        let brute: Vec<u32> = reference
            .iter()
            .filter(|e| e.aabb.lx < r.rx && e.aabb.rx > r.lx && e.aabb.ly < r.ry && e.aabb.ry > r.ly)
            .map(|e| e.id)
            .collect();
        assert_eq!(got, sorted(brute));
    }
}

#[test]
fn build_partitions_at_the_spatial_median() {
    // entities arrive interleaved from two distant clusters; the median
    // split must separate the clusters, so the root's two child boxes are
    // disjoint
    let data: Vec<EntityData> = (0..256)
        .map(|i| {
            let x = if i % 2 == 0 { (i / 2) as i64 } else { 1000 + (i / 2) as i64 };
            ent(i, x, 0, 1)
        })
        .collect();
    let tree = BVHTree::new(data);
    let nodes = tree.get_children();
    // children come before parents, so the root is last
    let root = nodes.last().unwrap();
    match root {
        Node::Branch(_, c0, c1) => {
            assert!(!node_bb(c0).is_colliding(&node_bb(c1)));
        }
        Node::Fruit(_, _, _) => panic!("root of a 256-entity tree must be a branch"),
    }
}

#[test]
fn query_reports_each_unique_id_at_most_once() {
    let data: Vec<EntityData> = (0..64).map(|i| ent(i, (i as i64 * 7) % 120, (i as i64 * 11) % 90, 12)).collect();
    let tree = BVHTree::new(data);
    let got = sorted(tree.query_rect(&Aabb { lx: -50, ly: -50, rx: 200, ry: 200 }, &[true; LAYERS]));
    let mut deduped = got.clone();
    deduped.dedup();
    assert_eq!(got, deduped);
}

#[test]
fn insert_places_near_and_stays_queryable() {
    let data: Vec<EntityData> = (0..20).map(|i| ent(i, i as i64 * 50, 0, 10)).collect();
    let mut tree = BVHTree::new(data);
    tree.insert(&ent(99, 510, 5, 10));
    let hits = tree.query_point(&Vec2 { x: 510, y: 5 }, &[true; LAYERS]);
    assert!(hits.contains(&99));
    for n in tree.get_children() {
        check_boxes(n, false);
    }
}
