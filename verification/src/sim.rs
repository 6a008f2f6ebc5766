//! The frame orchestrator: owns the live entities and the spatial index,
//! and runs the per-frame passes in order — integration, wall response,
//! pairwise response against a pre-pass snapshot, and an index shrink —
//! rebuilding the index from scratch on a timer or when it is absent.

use vstd::prelude::*;
use crate::bvh::BVHTree;
use crate::bvh::EntityData;
use crate::bvh::Node;
use crate::collider::Collider;
use crate::collider::bound_overlap_spec;
use crate::collider::overlap_spec;
use crate::geometry::Aabb;
use crate::geometry::Vec2;
use crate::geometry::clamp_spec;
use crate::physics::Physics;
use crate::physics::PhysicsConfig;
use crate::physics::TIME_SCALE;
use crate::physics::resolve_single_spec;
use crate::utils::Collisions;
use crate::utils::copy_ids;

verus! {

/// One live entity as the orchestrator sees it: identifier, position, an
/// optional collider and physics body, the frozen flag, and the collision
/// candidates recorded for it last frame.
pub struct SimEntity {
    pub id: u32,
    pub position: Vec2,
    pub collider: Option<Collider>,
    pub physics: Option<Physics>,
    pub frozen: bool,
    pub collisions: Collisions,
}

impl SimEntity {
    pub open spec fn wf(self) -> bool {
        &&& self.position.pos_wf()
        &&& match self.collider {
            Some(c) => c.wf(),
            None => true,
        }
        &&& match self.physics {
            Some(p) => p.wf(),
            None => true,
        }
    }
}

/// Host-supplied configuration: the physics constants and the rebuild
/// interval of the spatial index, in ticks.
#[derive(Clone, Copy, Debug, PartialEq, Eq, Structural)]
pub struct SimConfig {
    pub physics: PhysicsConfig,
    pub min_bvh_update_time: i64,
}

impl SimConfig {
    pub open spec fn wf(self) -> bool {
        self.physics.wf() && 0 <= self.min_bvh_update_time <= 0x2000000000000000
    }
}

/// The index entry a collider-bearing entity contributes to a rebuild.
pub open spec fn entity_input(e: SimEntity, c: Collider) -> EntityData {
    EntityData { collider: c, position: e.position, aabb: c.bb_spec(e.position), id: e.id }
}

/// The index entries of all collider-bearing entities, in order.
pub open spec fn bvh_inputs(s: Seq<SimEntity>) -> Seq<EntityData>
    decreases s.len(),
{
    if s.len() == 0 {
        Seq::empty()
    } else {
        let rest = bvh_inputs(s.drop_last());
        match s.last().collider {
            Some(c) => rest.push(entity_input(s.last(), c)),
            None => rest,
        }
    }
}

/// Construct a new spatial index over every entity that has a collider,
/// or `None` when no entity does ("no entities means no tree").
pub fn create_bvh(entities: &Vec<SimEntity>) -> (r: Option<BVHTree>)
    requires
        forall|i: int| 0 <= i < entities@.len() ==> (#[trigger] entities@[i]).wf(),
    ensures
        r is Some <==> bvh_inputs(entities@).len() >= 1,
        match r {
            Some(t) => {
                &&& t.wf()
                &&& t.root().tight()
                &&& t.root().ids().to_multiset() == bvh_inputs(entities@).map_values(
                    |e: EntityData| e.id,
                ).to_multiset()
                &&& t.root().fruits().to_multiset() == bvh_inputs(entities@).map_values(
                    |e: EntityData| crate::bvh::entity_fruit(e),
                ).to_multiset()
                &&& t.root().height() <= crate::bvh::log2_up(bvh_inputs(entities@).len()) + 1
            },
            None => true,
        },
{
    let mut data: Vec<EntityData> = Vec::new();
    let mut i: usize = 0;
    while i < entities.len()
        invariant
            0 <= i <= entities@.len(),
            forall|k: int| 0 <= k < entities@.len() ==> (#[trigger] entities@[k]).wf(),
            data@ == bvh_inputs(entities@.take(i as int)),
            forall|k: int| 0 <= k < data@.len() ==> (#[trigger] data@[k]).wf(),
        decreases entities@.len() - i,
    {
        proof {
            assert(entities@.take(i + 1).drop_last() =~= entities@.take(i as int));
            assert(entities@.take(i + 1).last() == entities@[i as int]);
        }
        let e = &entities[i];
        match &e.collider {
            Some(c) => {
                let bb = c.get_bounding_box(&e.position);
                data.push(
                    EntityData { collider: *c, position: e.position, aabb: bb, id: e.id },
                );
            },
            None => {},
        }
        i = i + 1;
    }
    proof {
        assert(entities@.take(entities@.len() as int) =~= entities@);
    }
    if data.len() > 0 {
        Some(BVHTree::new(data))
    } else {
        None
    }
}

/// One entity after the integration pass: frozen or physics-less entities
/// are untouched; the rest get gravity, friction and a position advance.
pub open spec fn integrate_ent(e: SimEntity, delta: int, cfg: PhysicsConfig) -> SimEntity {
    match e.physics {
        Some(ph) => if e.frozen {
            e
        } else {
            let nv = ph.integrate_vel_spec(cfg);
            let npos = Physics::advance_spec(e.position, nv, delta);
            SimEntity {
                id: e.id,
                position: npos,
                collider: e.collider,
                physics: Some(Physics { velocity: nv, mass: ph.mass }),
                frozen: e.frozen,
                collisions: e.collisions,
            }
        },
        None => e,
    }
}

/// Integration keeps an entity well formed.
pub proof fn lemma_integrate_ent_wf(e: SimEntity, delta: int, cfg: PhysicsConfig)
    requires
        e.wf(),
        cfg.wf(),
    ensures
        integrate_ent(e, delta, cfg).wf(),
        integrate_ent(e, delta, cfg).id == e.id,
        integrate_ent(e, delta, cfg).collider == e.collider,
        integrate_ent(e, delta, cfg).frozen == e.frozen,
{
}

/// The index after the integration pass: for every moved collider-bearing
/// entity, in order, the tree box for its id is updated from the box at
/// the old position to the box at the new one.
pub open spec fn phys_tree(root: Node, olds: Seq<SimEntity>, delta: int, cfg: PhysicsConfig) -> Node
    decreases olds.len(),
{
    if olds.len() == 0 {
        root
    } else {
        let e = olds[0];
        let e2 = integrate_ent(e, delta, cfg);
        let root2 = if !e.frozen && e.physics is Some {
            match e.collider {
                Some(c) => root.update_spec(c.bb_spec(e.position), e.id, c.bb_spec(e2.position)).0,
                None => root,
            }
        } else {
            root
        };
        phys_tree(root2, olds.drop_first(), delta, cfg)
    }
}

/// The integration pass keeps the index invariant and its ids.
pub proof fn lemma_phys_tree_wf(root: Node, olds: Seq<SimEntity>, delta: int, cfg: PhysicsConfig)
    requires
        root.wf(),
        cfg.wf(),
        forall|i: int| 0 <= i < olds.len() ==> (#[trigger] olds[i]).wf(),
    ensures
        phys_tree(root, olds, delta, cfg).wf(),
        phys_tree(root, olds, delta, cfg).ids() == root.ids(),
    decreases olds.len(),
{
    if olds.len() == 0 {
    } else {
        let e = olds[0];
        let e2 = integrate_ent(e, delta, cfg);
        lemma_integrate_ent_wf(e, delta, cfg);
        let root2 = if !e.frozen && e.physics is Some {
            match e.collider {
                Some(c) => {
                    crate::collider::lemma_bb_wf(c, e2.position);
                    root.lemma_update_wf(c.bb_spec(e.position), e.id, c.bb_spec(e2.position));
                    root.update_spec(c.bb_spec(e.position), e.id, c.bb_spec(e2.position)).0
                },
                None => root,
            }
        } else {
            root
        };
        lemma_phys_tree_wf(root2, olds.drop_first(), delta, cfg);
    }
}

/// One entity after the wall pass: an unfrozen physics collider that has
/// left the arena is pushed back inside and its outward velocity
/// components are inverted and damped.
pub open spec fn bounds_ent(e: SimEntity, arena: Aabb, cfg: PhysicsConfig) -> SimEntity {
    match (e.collider, e.physics) {
        (Some(c), Some(ph)) => if e.frozen || !c.physics_collider {
            e
        } else {
            match bound_overlap_spec(c.bb_spec(e.position), arena) {
                Some(o) => SimEntity {
                    id: e.id,
                    position: Vec2 {
                        x: clamp_spec(e.position.x + o.x) as i64,
                        y: clamp_spec(e.position.y + o.y) as i64,
                    },
                    collider: e.collider,
                    physics: Some(
                        Physics { velocity: Physics::bounce_spec(ph.velocity, o, cfg), mass: ph.mass },
                    ),
                    frozen: e.frozen,
                    collisions: e.collisions,
                },
                None => e,
            }
        },
        _ => e,
    }
}

/// The wall pass keeps an entity well formed.
pub proof fn lemma_bounds_ent_wf(e: SimEntity, arena: Aabb, cfg: PhysicsConfig)
    requires
        e.wf(),
        cfg.wf(),
    ensures
        bounds_ent(e, arena, cfg).wf(),
        bounds_ent(e, arena, cfg).id == e.id,
        bounds_ent(e, arena, cfg).collider == e.collider,
        bounds_ent(e, arena, cfg).frozen == e.frozen,
{
    match (e.collider, e.physics) {
        (Some(c), Some(ph)) => {
            crate::collider::lemma_bb_wf(c, e.position);
            crate::physics::lemma_scale_spec_bound(
                ph.velocity.x as int,
                cfg.collision_friction_num as int,
                cfg.collision_friction_den as int,
            );
            crate::physics::lemma_scale_spec_bound(
                ph.velocity.y as int,
                cfg.collision_friction_num as int,
                cfg.collision_friction_den as int,
            );
        },
        _ => {},
    }
}

/// The first snapshot entry that carries the given id and takes part in
/// the pairwise pass (it has a collider and is not frozen).
pub open spec fn snap_lookup(s: Seq<SimEntity>, id: u32) -> Option<SimEntity>
    decreases s.len(),
{
    if s.len() == 0 {
        None
    } else if s[0].id == id && s[0].collider is Some && !s[0].frozen {
        Some(s[0])
    } else {
        snap_lookup(s.drop_first(), id)
    }
}

/// The query result with the querying entity's own id removed.
pub open spec fn exclude_id(q: Seq<u32>, id: u32) -> Seq<u32>
    decreases q.len(),
{
    if q.len() == 0 {
        Seq::empty()
    } else {
        let rest = exclude_id(q.drop_last(), id);
        if q.last() == id {
            rest
        } else {
            rest.push(q.last())
        }
    }
}

/// One entity's pairwise responses, folded left over its collision
/// candidates: each resolution reads the counterpart's snapshot state and
/// mutates only the accumulated own position and physics.
pub open spec fn resolve_fold(
    c: Collider,
    own_old: Vec2,
    pos: Vec2,
    ph: Physics,
    cand: Seq<u32>,
    snap: Seq<SimEntity>,
    cfg: PhysicsConfig,
) -> (Vec2, Physics)
    decreases cand.len(),
{
    if cand.len() == 0 {
        (pos, ph)
    } else {
        let next = match snap_lookup(snap, cand[0]) {
            Some(e2) => match (e2.collider, e2.physics) {
                (Some(c2), Some(ph2)) => if c.physics_collider && c2.physics_collider {
                    match overlap_spec(c.bb_spec(own_old), c2.bb_spec(e2.position)) {
                        Some(o) => resolve_single_spec(ph, pos, ph2, o, cfg),
                        None => (pos, ph),
                    }
                } else {
                    (pos, ph)
                },
                _ => (pos, ph),
            },
            None => (pos, ph),
        };
        resolve_fold(c, own_old, next.0, next.1, cand.drop_first(), snap, cfg)
    }
}

/// The fold keeps the accumulated state well formed.
pub proof fn lemma_resolve_fold_wf(
    c: Collider,
    own_old: Vec2,
    pos: Vec2,
    ph: Physics,
    cand: Seq<u32>,
    snap: Seq<SimEntity>,
    cfg: PhysicsConfig,
)
    requires
        pos.pos_wf(),
        ph.wf(),
    ensures
        resolve_fold(c, own_old, pos, ph, cand, snap, cfg).0.pos_wf(),
        resolve_fold(c, own_old, pos, ph, cand, snap, cfg).1.wf(),
        resolve_fold(c, own_old, pos, ph, cand, snap, cfg).1.mass == ph.mass,
    decreases cand.len(),
{
    if cand.len() == 0 {
    } else {
        let next = match snap_lookup(snap, cand[0]) {
            Some(e2) => match (e2.collider, e2.physics) {
                (Some(c2), Some(ph2)) => if c.physics_collider && c2.physics_collider {
                    match overlap_spec(c.bb_spec(own_old), c2.bb_spec(e2.position)) {
                        Some(o) => resolve_single_spec(ph, pos, ph2, o, cfg),
                        None => (pos, ph),
                    }
                } else {
                    (pos, ph)
                },
                _ => (pos, ph),
            },
            None => (pos, ph),
        };
        lemma_resolve_fold_wf(c, own_old, next.0, next.1, cand.drop_first(), snap, cfg);
    }
}

/// What the pairwise pass makes of one entity: its new position, its new
/// physics state, and the candidate ids recorded for it.
pub open spec fn collide_ent(e: SimEntity, snap: Seq<SimEntity>, root: Node, cfg: PhysicsConfig)
    -> (Vec2, Option<Physics>, Seq<u32>) {
    match e.collider {
        Some(c) => if e.frozen {
            (e.position, e.physics, e.collisions.0@)
        } else {
            let cand = exclude_id(
                root.query_rect_spec(c.bb_spec(e.position), c.collision_mask@),
                e.id,
            );
            match e.physics {
                Some(ph) => {
                    let r = resolve_fold(c, e.position, e.position, ph, cand, snap, cfg);
                    (r.0, Some(r.1), cand)
                },
                None => (e.position, e.physics, cand),
            }
        },
        None => (e.position, e.physics, e.collisions.0@),
    }
}

/// The whole entity list after the integration pass.
pub open spec fn phys_ents(s: Seq<SimEntity>, delta: int, cfg: PhysicsConfig) -> Seq<SimEntity> {
    s.map_values(|e: SimEntity| integrate_ent(e, delta, cfg))
}

/// The whole entity list after the wall pass.
pub open spec fn bounds_ents(s: Seq<SimEntity>, arena: Aabb, cfg: PhysicsConfig) -> Seq<
    SimEntity,
> {
    s.map_values(|e: SimEntity| bounds_ent(e, arena, cfg))
}

/// `post` is what the pairwise pass makes of `pre` against the index
/// `root`: positions, physics and recorded candidates per [`collide_ent`],
/// everything else untouched.
pub open spec fn collide_matches(
    pre: Seq<SimEntity>,
    post: Seq<SimEntity>,
    root: Node,
    cfg: PhysicsConfig,
) -> bool {
    &&& post.len() == pre.len()
    &&& forall|i: int|
        0 <= i < pre.len() ==> {
            let r = collide_ent(#[trigger] pre[i], pre, root, cfg);
            &&& post[i].id == pre[i].id
            &&& post[i].collider == pre[i].collider
            &&& post[i].frozen == pre[i].frozen
            &&& post[i].position == r.0
            &&& post[i].physics == r.1
            &&& post[i].collisions.0@ == r.2
        }
}

/// The rebuild decision: the index is rebuilt from scratch when the timer
/// has passed the configured interval or no index exists.
pub open spec fn should_rebuild(time: int, threshold: int, has_tree: bool) -> bool {
    time > threshold || !has_tree
}

/// The simulation state: the live entities, the optional spatial index,
/// and the time since the index was last rebuilt. The index is owned here
/// exclusively and mutated by a single writer per frame.
pub struct Simulation {
    pub entities: Vec<SimEntity>,
    pub tree: Option<BVHTree>,
    pub time_since_bvh_update: i64,
}

impl Simulation {
    pub open spec fn wf(self) -> bool {
        &&& forall|i: int| 0 <= i < self.entities@.len() ==> (#[trigger] self.entities@[i]).wf()
        &&& match self.tree {
            Some(t) => t.wf(),
            None => true,
        }
        &&& 0 <= self.time_since_bvh_update <= 0x4000000000000000
    }

    /// An empty simulation: no entities and no index yet.
    pub fn new() -> (r: Simulation)
        ensures
            r.wf(),
            r.entities@.len() == 0,
            r.tree is None,
            r.time_since_bvh_update == 0,
    {
        Simulation { entities: Vec::new(), tree: None, time_since_bvh_update: 0 }
    }

    /// The integration pass: advance every unfrozen physics-bearing entity
    /// and grow the index box of each moved collider-bearing one.
    pub fn update_physics(&mut self, delta: i64, cfg: &PhysicsConfig)
        requires
            old(self).wf(),
            cfg.wf(),
            0 <= delta <= TIME_SCALE,
        ensures
            final(self).wf(),
            final(self).entities@.len() == old(self).entities@.len(),
            forall|i: int|
                0 <= i < final(self).entities@.len() ==> final(self).entities@[i] == integrate_ent(
                    #[trigger] old(self).entities@[i],
                    delta as int,
                    *cfg,
                ),
            match (old(self).tree, final(self).tree) {
                (Some(t0), Some(t1)) => t1.root() == phys_tree(
                    t0.root(),
                    old(self).entities@,
                    delta as int,
                    *cfg,
                ) && t1.root().ids() == t0.root().ids(),
                (None, None) => true,
                _ => false,
            },
            final(self).time_since_bvh_update == old(self).time_since_bvh_update,
    {
        let ghost olds = self.entities@;
        let mut pending = Vec::new();
        core::mem::swap(&mut self.entities, &mut pending);
        let mut done: Vec<SimEntity> = Vec::new();
        proof {
            match &self.tree {
                Some(t) => {
                    lemma_phys_tree_wf(t.root(), olds, delta as int, *cfg);
                },
                None => {},
            }
            assert(olds.skip(0) =~= olds);
        }
        while pending.len() > 0
            invariant
                olds.len() == done@.len() + pending@.len(),
                pending@ == olds.skip(done@.len() as int),
                forall|i: int| 0 <= i < olds.len() ==> (#[trigger] olds[i]).wf(),
                forall|i: int|
                    0 <= i < done@.len() ==> done@[i] == integrate_ent(
                        #[trigger] olds[i],
                        delta as int,
                        *cfg,
                    ),
                forall|i: int| 0 <= i < done@.len() ==> (#[trigger] done@[i]).wf(),
                cfg.wf(),
                0 <= delta <= TIME_SCALE,
                self.time_since_bvh_update == old(self).time_since_bvh_update,
                0 <= self.time_since_bvh_update <= 0x4000000000000000,
                self.entities@.len() == 0,
                match (old(self).tree, self.tree) {
                    (Some(t0), Some(t1)) => t1.root().wf() && phys_tree(
                        t1.root(),
                        pending@,
                        delta as int,
                        *cfg,
                    ) == phys_tree(t0.root(), olds, delta as int, *cfg),
                    (None, None) => true,
                    _ => false,
                },
            decreases pending@.len(),
        {
            let ghost pend0 = pending@;
            let mut e = pending.remove(0);
            proof {
                assert(pend0[0] == olds[done@.len() as int]);
                lemma_integrate_ent_wf(pend0[0], delta as int, *cfg);
            }
            let moved = e.physics.is_some() && !e.frozen;
            if moved {
                let mut ph2 = e.physics.unwrap();
                let old_pos = e.position;
                let mut new_pos = e.position;
                ph2.update(&mut new_pos, delta, cfg);
                match (&e.collider, &mut self.tree) {
                    (Some(c), Some(t)) => {
                        let old_bb = c.get_bounding_box(&old_pos);
                        let new_bb = c.get_bounding_box(&new_pos);
                        t.update((&old_bb, e.id), (&new_bb, e.id));
                    },
                    _ => {},
                }
                e = SimEntity {
                    id: e.id,
                    position: new_pos,
                    collider: e.collider,
                    physics: Some(ph2),
                    frozen: e.frozen,
                    collisions: e.collisions,
                };
            }
            done.push(e);
            proof {
                assert(pending@ =~= olds.skip(done@.len() as int));
            }
        }
        core::mem::swap(&mut self.entities, &mut done);
    }

    /// The wall pass: every unfrozen physics collider that has left the
    /// arena is pushed back inside and bounced.
    pub fn collide_bounds(&mut self, arena: &Aabb, cfg: &PhysicsConfig)
        requires
            old(self).wf(),
            cfg.wf(),
            arena.wf(),
        ensures
            final(self).wf(),
            final(self).tree == old(self).tree,
            final(self).time_since_bvh_update == old(self).time_since_bvh_update,
            final(self).entities@.len() == old(self).entities@.len(),
            forall|i: int|
                0 <= i < final(self).entities@.len() ==> final(self).entities@[i] == bounds_ent(
                    #[trigger] old(self).entities@[i],
                    *arena,
                    *cfg,
                ),
    {
        let ghost olds = self.entities@;
        let mut pending = Vec::new();
        core::mem::swap(&mut self.entities, &mut pending);
        let mut done: Vec<SimEntity> = Vec::new();
        proof {
            assert(olds.skip(0) =~= olds);
        }
        while pending.len() > 0
            invariant
                olds.len() == done@.len() + pending@.len(),
                pending@ == olds.skip(done@.len() as int),
                forall|i: int| 0 <= i < olds.len() ==> (#[trigger] olds[i]).wf(),
                forall|i: int|
                    0 <= i < done@.len() ==> done@[i] == bounds_ent(
                        #[trigger] olds[i],
                        *arena,
                        *cfg,
                    ),
                forall|i: int| 0 <= i < done@.len() ==> (#[trigger] done@[i]).wf(),
                cfg.wf(),
                arena.wf(),
                self.tree == old(self).tree,
                self.time_since_bvh_update == old(self).time_since_bvh_update,
                self.entities@.len() == 0,
                old(self).wf(),
            decreases pending@.len(),
        {
            let ghost pend0 = pending@;
            let mut e = pending.remove(0);
            proof {
                assert(pend0[0] == olds[done@.len() as int]);
                lemma_bounds_ent_wf(pend0[0], *arena, *cfg);
            }
            let responds = e.collider.is_some() && e.physics.is_some() && !e.frozen;
            if responds {
                let c = e.collider.unwrap();
                if c.physics_collider {
                    let overlap_vec = c.get_collision_bounds(&e.position, arena);
                    match overlap_vec {
                        Some(o) => {
                            let mut ph2 = e.physics.unwrap();
                            let mut pos2 = e.position;
                            ph2.collide_bound(&mut pos2, o, cfg);
                            e = SimEntity {
                                id: e.id,
                                position: pos2,
                                collider: e.collider,
                                physics: Some(ph2),
                                frozen: e.frozen,
                                collisions: e.collisions,
                            };
                        },
                        None => {},
                    }
                }
            }
            done.push(e);
            proof {
                assert(pending@ =~= olds.skip(done@.len() as int));
            }
        }
        core::mem::swap(&mut self.entities, &mut done);
    }

    /// The pairwise pass: each entity queries the index for candidates
    /// with its own box and mask, records them, and applies its own share
    /// of every response against the pre-pass snapshot of its counterpart.
    /// Responses are applied from each entity's own perspective; the
    /// counterpart applies its own share when its turn comes.
    #[verifier::rlimit(100)]
    pub fn collide_entities(&mut self, cfg: &PhysicsConfig)
        requires
            old(self).wf(),
            cfg.wf(),
        ensures
            final(self).wf(),
            final(self).tree == old(self).tree,
            final(self).time_since_bvh_update == old(self).time_since_bvh_update,
            final(self).entities@.len() == old(self).entities@.len(),
            match old(self).tree {
                Some(t) => collide_matches(
                    old(self).entities@,
                    final(self).entities@,
                    t.root(),
                    *cfg,
                ),
                None => final(self).entities == old(self).entities,
            },
    {
        match &self.tree {
            Some(t) => {
                let ghost olds = self.entities@;
                let mut snap = Vec::new();
                core::mem::swap(&mut self.entities, &mut snap);
                let mut done: Vec<SimEntity> = Vec::new();
                let mut i: usize = 0;
                while i < snap.len()
                    invariant
                        snap@ == olds,
                        0 <= i <= olds.len(),
                        done@.len() == i,
                        forall|k: int| 0 <= k < olds.len() ==> (#[trigger] olds[k]).wf(),
                        t.wf(),
                        forall|k: int|
                            0 <= k < done@.len() ==> {
                                let r = collide_ent(#[trigger] olds[k], olds, t.root(), *cfg);
                                &&& done@[k].id == olds[k].id
                                &&& done@[k].collider == olds[k].collider
                                &&& done@[k].frozen == olds[k].frozen
                                &&& done@[k].position == r.0
                                &&& done@[k].physics == r.1
                                &&& done@[k].collisions.0@ == r.2
                            },
                        forall|k: int| 0 <= k < done@.len() ==> (#[trigger] done@[k]).wf(),
                        cfg.wf(),
                    decreases olds.len() - i,
                {
                    let e = &snap[i];
                    let next_ent: SimEntity;
                    if e.collider.is_some() && !e.frozen {
                        let c = e.collider.unwrap();
                        let bb = c.get_bounding_box(&e.position);
                        let q = t.query_rect(&bb, &c.collision_mask);
                        let cand = exclude_own_id(&q, e.id);
                        match &e.physics {
                            Some(ph) => {
                                let mut pos2 = e.position;
                                let mut ph2 = *ph;
                                let ghost own_old = olds[i as int].position;
                                let ghost ph0 = ph2;
                                let ghost cand_all = cand@;
                                let mut j: usize = 0;
                                proof {
                                    assert(cand_all.skip(0) =~= cand_all);
                                }
                                while j < cand.len()
                                    invariant
                                        0 <= j <= cand@.len(),
                                        cand@ == cand_all,
                                        snap@ == olds,
                                        forall|k: int|
                                            0 <= k < olds.len() ==> (#[trigger] olds[k]).wf(),
                                        pos2.pos_wf(),
                                        ph2.wf(),
                                        cfg.wf(),
                                        c.wf(),
                                        0 <= i < olds.len(),
                                        own_old == olds[i as int].position,
                                        olds[i as int].wf(),
                                        resolve_fold(
                                            c,
                                            own_old,
                                            pos2,
                                            ph2,
                                            cand_all.skip(j as int),
                                            olds,
                                            *cfg,
                                        ) == resolve_fold(
                                            c,
                                            own_old,
                                            own_old,
                                            ph0,
                                            cand_all,
                                            olds,
                                            *cfg,
                                        ),
                                    decreases cand@.len() - j,
                                {
                                    let ghost pos_before = pos2;
                                    let ghost ph_before = ph2;
                                    let cid = cand[j];
                                    proof {
                                        assert(cand_all.skip(j as int)[0] == cand_all[j as int]);
                                    }
                                    match find_snap(&snap, cid) {
                                        Some(k) => {
                                            let e2 = &snap[k];
                                            match (&e2.collider, &e2.physics) {
                                                (Some(c2), Some(ph2b)) => {
                                                    if c.physics_collider && c2.physics_collider {
                                                        let own_pos = snap[i].position;
                                                        let overlap_vec = c.get_collision(
                                                            &own_pos,
                                                            &e2.position,
                                                            c2,
                                                        );
                                                        match overlap_vec {
                                                            Some(o) => {
                                                                proof {
                                                                    crate::collider::lemma_mtv_bounds(
                                                                        c.bb_spec(own_old),
                                                                        c2.bb_spec(e2.position),
                                                                    );
                                                                }
                                                                ph2.resolve_collision_single(
                                                                    &mut pos2,
                                                                    &e2.position,
                                                                    ph2b,
                                                                    o,
                                                                    cfg,
                                                                );
                                                            },
                                                            None => {},
                                                        }
                                                    }
                                                },
                                                _ => {},
                                            }
                                        },
                                        None => {},
                                    }
                                    proof {
                                        assert(cand_all.skip(j as int).drop_first() =~= cand_all.skip(
                                            j + 1 as int,
                                        ));
                                        assert(resolve_fold(
                                            c,
                                            own_old,
                                            pos_before,
                                            ph_before,
                                            cand_all.skip(j as int),
                                            olds,
                                            *cfg,
                                        ) == resolve_fold(
                                            c,
                                            own_old,
                                            pos2,
                                            ph2,
                                            cand_all.skip(j + 1 as int),
                                            olds,
                                            *cfg,
                                        ));
                                    }
                                    j = j + 1;
                                }
                                next_ent = SimEntity {
                                    id: e.id,
                                    position: pos2,
                                    collider: e.collider,
                                    physics: Some(ph2),
                                    frozen: e.frozen,
                                    collisions: Collisions(cand),
                                };
                            },
                            None => {
                                next_ent = SimEntity {
                                    id: e.id,
                                    position: e.position,
                                    collider: e.collider,
                                    physics: e.physics,
                                    frozen: e.frozen,
                                    collisions: Collisions(cand),
                                };
                            },
                        }
                    } else {
                        next_ent = SimEntity {
                            id: e.id,
                            position: e.position,
                            collider: e.collider,
                            physics: e.physics,
                            frozen: e.frozen,
                            collisions: Collisions(copy_ids(&e.collisions.0)),
                        };
                    }
                    done.push(next_ent);
                    i = i + 1;
                }
                core::mem::swap(&mut self.entities, &mut done);
            },
            None => {},
        }
    }

    /// The shrink pass: restore tight boxes throughout the index.
    pub fn shrink_bvh(&mut self)
        requires
            old(self).wf(),
        ensures
            final(self).wf(),
            final(self).entities == old(self).entities,
            final(self).time_since_bvh_update == old(self).time_since_bvh_update,
            match (old(self).tree, final(self).tree) {
                (Some(t0), Some(t1)) => t1.root() == t0.root().shrink_spec() && t1.root().tight()
                    && t1.root().ids() == t0.root().ids(),
                (None, None) => true,
                _ => false,
            },
    {
        match &mut self.tree {
            Some(t) => {
                t.shrink();
            },
            None => {},
        }
    }

    /// One whole frame: rebuild the index when the timer or its absence
    /// demands it, then run integration, wall response, pairwise response
    /// and the index shrink in order, and advance the rebuild timer.
    pub fn frame(&mut self, delta: i64, arena: &Aabb, cfg: &SimConfig)
        requires
            old(self).wf(),
            cfg.wf(),
            arena.wf(),
            0 <= delta <= TIME_SCALE,
        ensures
            final(self).wf(),
            final(self).entities@.len() == old(self).entities@.len(),
            final(self).time_since_bvh_update == (if should_rebuild(
                old(self).time_since_bvh_update as int,
                cfg.min_bvh_update_time as int,
                old(self).tree is Some,
            ) {
                0int
            } else {
                old(self).time_since_bvh_update as int
            }) + delta,
            ({
                let e1 = phys_ents(old(self).entities@, delta as int, cfg.physics);
                let e2 = bounds_ents(e1, *arena, cfg.physics);
                if !should_rebuild(
                    old(self).time_since_bvh_update as int,
                    cfg.min_bvh_update_time as int,
                    old(self).tree is Some,
                ) {
                    match (old(self).tree, final(self).tree) {
                        (Some(t0), Some(t1)) => {
                            let mid = phys_tree(
                                t0.root(),
                                old(self).entities@,
                                delta as int,
                                cfg.physics,
                            );
                            &&& t1.root() == mid.shrink_spec()
                            &&& t1.root().tight()
                            &&& t1.root().ids() == t0.root().ids()
                            &&& collide_matches(e2, final(self).entities@, mid, cfg.physics)
                        },
                        _ => false,
                    }
                } else {
                    match final(self).tree {
                        Some(t1) => exists|mid: Node|
                            {
                                &&& #[trigger] mid.wf()
                                &&& mid.ids().to_multiset() == bvh_inputs(
                                    old(self).entities@,
                                ).map_values(|d: EntityData| d.id).to_multiset()
                                &&& t1.root() == mid.shrink_spec()
                                &&& t1.root().tight()
                                &&& collide_matches(e2, final(self).entities@, mid, cfg.physics)
                            },
                        None => {
                            &&& bvh_inputs(old(self).entities@).len() == 0
                            &&& final(self).entities@ == e2
                        },
                    }
                }
            }),
    {
        let ghost olds = self.entities@;
        let rebuilt = self.time_since_bvh_update > cfg.min_bvh_update_time
            || self.tree.is_none();
        if rebuilt {
            self.tree = create_bvh(&self.entities);
            self.time_since_bvh_update = 0;
        }
        let ghost tree_after_rebuild = self.tree;
        self.update_physics(delta, &cfg.physics);
        let ghost e1 = self.entities@;
        let ghost tree_mid = self.tree;
        self.collide_bounds(arena, &cfg.physics);
        let ghost e2 = self.entities@;
        self.collide_entities(&cfg.physics);
        self.shrink_bvh();
        self.time_since_bvh_update = self.time_since_bvh_update + delta;
        proof {
            assert(e1 =~= phys_ents(olds, delta as int, cfg.physics));
            assert(e2 =~= bounds_ents(e1, *arena, cfg.physics));
        }
    }
}

/// Find the index of the first snapshot entry that carries the given id
/// and takes part in the pairwise pass.
fn find_snap(snap: &Vec<SimEntity>, id: u32) -> (r: Option<usize>)
    ensures
        match r {
            Some(k) => 0 <= k < snap@.len() && snap_lookup(snap@, id) == Some(snap@[k as int]),
            None => snap_lookup(snap@, id) is None,
        },
{
    let mut i: usize = 0;
    proof {
        assert(snap@.skip(0) =~= snap@);
    }
    while i < snap.len()
        invariant
            0 <= i <= snap@.len(),
            snap_lookup(snap@, id) == snap_lookup(snap@.skip(i as int), id),
        decreases snap@.len() - i,
    {
        let e = &snap[i];
        if e.id == id && e.collider.is_some() && !e.frozen {
            proof {
                assert(snap@.skip(i as int)[0] == snap@[i as int]);
            }
            return Some(i);
        }
        i = i + 1;
        proof {
            assert(snap@.skip(i - 1 as int).drop_first() =~= snap@.skip(i as int));
        }
    }
    None
}

/// Copy of the broad-phase result without the querying entity's own id.
fn exclude_own_id(q: &Vec<u32>, id: u32) -> (r: Vec<u32>)
    ensures
        r@ == exclude_id(q@, id),
{
    let mut r: Vec<u32> = Vec::new();
    let mut i: usize = 0;
    while i < q.len()
        invariant
            0 <= i <= q@.len(),
            r@ == exclude_id(q@.take(i as int), id),
        decreases q@.len() - i,
    {
        proof {
            assert(q@.take(i + 1).drop_last() =~= q@.take(i as int));
            assert(q@.take(i + 1).last() == q@[i as int]);
        }
        if q[i] != id {
            r.push(q[i]);
        }
        i = i + 1;
    }
    proof {
        assert(q@.take(q@.len() as int) =~= q@);
    }
    r
}

} // verus!
